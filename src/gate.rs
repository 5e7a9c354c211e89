use std::collections::HashMap;
use vstd::prelude::*;

verus! {

broadcast use vstd::std_specs::hash::group_hash_axioms;

/// Most instructions one defined-gate evaluation may execute before it is
/// abandoned; bounds evaluation of bodies whose jumps form a cycle.
pub const STEP_LIMIT: usize = 100000;

/// Errors raised while evaluating a gate.
#[derive(Clone, Copy, PartialEq, Eq, Debug, Structural)]
pub enum EvalError {
    /// The number of inputs (or produced outputs) does not match its gate.
    ArityMismatch,
    /// A net was read before anything wrote it.
    UndefinedNet,
    /// The body ran more than `STEP_LIMIT` instructions.
    StepLimitExceeded,
    /// No gate of the requested name is registered.
    UnknownGate,
}

/// Errors raised while building a registry from an instruction stream.
#[derive(Clone, Copy, PartialEq, Eq, Debug, Structural)]
pub enum BuildError {
    /// A definition reuses the name of a registered gate.
    DuplicateGateName,
    /// A definition declares no inputs.
    ZeroArity,
    /// An instruction invokes a gate that is not registered yet.
    UnknownGate,
    /// A jump names a label that no instruction of its definition carries.
    UnknownLabel,
    /// An instruction stands before any definition.
    InstructionOutsideDefinition,
    /// A definition ends without declaring its outputs.
    MissingOutputDeclaration,
}

/// The native boolean functions of builtin gates.
#[derive(Clone, Copy, PartialEq, Eq, Debug, Structural)]
pub enum BuiltinOp {
    And,
    Not,
}

pub open spec fn op_arity(op: BuiltinOp) -> nat {
    match op {
        BuiltinOp::And => 2,
        BuiltinOp::Not => 1,
    }
}

pub open spec fn op_apply(op: BuiltinOp, ins: Seq<bool>) -> Seq<bool> {
    match op {
        BuiltinOp::And => seq![ins[0] && ins[1]],
        BuiltinOp::Not => seq![!ins[0]],
    }
}

/// A gate computed by a native boolean function with one output.
pub struct BuiltinGate {
    pub op: BuiltinOp,
}

impl BuiltinGate {
    pub fn new(op: BuiltinOp) -> (r: Self)
        ensures
            r.op == op,
    {
        BuiltinGate { op }
    }

    pub fn inputs(&self) -> (r: usize)
        ensures
            r == op_arity(self.op),
    {
        match self.op {
            BuiltinOp::And => 2,
            BuiltinOp::Not => 1,
        }
    }

    pub fn calculate(&self, inputs: Vec<bool>) -> (r: Result<Vec<bool>, EvalError>)
        ensures
            same_result(r, eval_builtin(self.op, inputs@)),
    {
        if inputs.len() != self.inputs() {
            return Err(EvalError::ArityMismatch);
        }
        match self.op {
            BuiltinOp::And => {
                let r = vec![inputs[0] && inputs[1]];
                assert(r@ =~= op_apply(self.op, inputs@));
                Ok(r)
            },
            BuiltinOp::Not => {
                let r = vec![!inputs[0]];
                assert(r@ =~= op_apply(self.op, inputs@));
                Ok(r)
            },
        }
    }
}

pub open spec fn eval_builtin(op: BuiltinOp, ins: Seq<bool>) -> Result<Seq<bool>, EvalError> {
    if ins.len() == op_arity(op) {
        Ok(op_apply(op, ins))
    } else {
        Err(EvalError::ArityMismatch)
    }
}

/// Whether an executable result carries exactly the modelled result.
pub open spec fn same_result(r: Result<Vec<bool>, EvalError>, s: Result<Seq<bool>, EvalError>) -> bool {
    match r {
        Ok(v) => s == Ok::<Seq<bool>, EvalError>(v@),
        Err(e) => s == Err::<Seq<bool>, EvalError>(e),
    }
}


/// Invokes gate number `gate` of the registry, reading its inputs from
/// the nets `inputs` and writing its results, in order, to the nets `outputs`.
pub struct Instruction {
    pub inputs: Vec<usize>,
    pub gate: usize,
    pub outputs: Vec<usize>,
}

/// One step of a defined gate's body.
pub enum Step {
    Invoke(Instruction),
    /// Continue at the instruction of this index.
    Jump(usize),
}

/// A composite gate: an input arity, a body, and the nets read as outputs.
pub struct DefinedGate {
    pub inputs: usize,
    pub process: Vec<Step>,
    pub outputs: Vec<usize>,
}

pub enum Gate {
    Builtin(BuiltinGate),
    Defined(DefinedGate),
}

impl Gate {
    /// How many inputs this gate takes.
    pub open spec fn arity(&self) -> nat {
        match self {
            Gate::Builtin(b) => op_arity(b.op),
            Gate::Defined(d) => d.inputs as nat,
        }
    }

    /// How many outputs this gate produces.
    pub open spec fn output_count(&self) -> nat {
        match self {
            Gate::Builtin(_) => 1,
            Gate::Defined(d) => d.outputs@.len(),
        }
    }

    pub fn inputs(&self) -> (r: usize)
        ensures
            r == self.arity(),
    {
        match self {
            Gate::Builtin(b) => b.inputs(),
            Gate::Defined(d) => d.inputs,
        }
    }

    pub fn outputs(&self) -> (r: usize)
        ensures
            r == self.output_count(),
    {
        match self {
            Gate::Builtin(_) => 1,
            Gate::Defined(d) => d.outputs.len(),
        }
    }
}

/// A body step over plain values.
pub enum StepView {
    Invoke { inputs: Seq<usize>, gate: usize, outputs: Seq<usize> },
    Jump(usize),
}

/// A gate over plain values.
pub enum GateView {
    Builtin(BuiltinOp),
    Defined { inputs: usize, process: Seq<StepView>, outputs: Seq<usize> },
}

pub open spec fn step_view(s: Step) -> StepView {
    match s {
        Step::Invoke(i) => StepView::Invoke { inputs: i.inputs@, gate: i.gate, outputs: i.outputs@ },
        Step::Jump(t) => StepView::Jump(t),
    }
}

pub open spec fn step_views(s: Seq<Step>) -> Seq<StepView> {
    s.map_values(|x: Step| step_view(x))
}

pub open spec fn gate_view(g: Gate) -> GateView {
    match g {
        Gate::Builtin(b) => GateView::Builtin(b.op),
        Gate::Defined(d) => GateView::Defined {
            inputs: d.inputs,
            process: step_views(d.process@),
            outputs: d.outputs@,
        },
    }
}

pub open spec fn gate_views(g: Seq<Gate>) -> Seq<GateView> {
    g.map_values(|x: Gate| gate_view(x))
}

/// Nets `0 .. ins.len()` hold the inputs in order.
pub open spec fn initial_nets(ins: Seq<bool>) -> Map<usize, bool> {
    Map::new(|k: usize| (k as int) < ins.len(), |k: usize| ins[k as int])
}

/// The values of `nets` read through the indices `idx`, or `UndefinedNet`.
pub open spec fn read_nets(nets: Map<usize, bool>, idx: Seq<usize>) -> Result<Seq<bool>, EvalError> {
    if forall|k: int| 0 <= k < idx.len() ==> nets.contains_key(#[trigger] idx[k]) {
        Ok(idx.map_values(|n: usize| nets[n]))
    } else {
        Err(EvalError::UndefinedNet)
    }
}

/// `nets` after writing `vals[k]` to `idx[k]` for each `k` in order.
pub open spec fn write_nets(nets: Map<usize, bool>, idx: Seq<usize>, vals: Seq<bool>) -> Map<usize, bool>
    decreases idx.len(),
{
    if idx.len() == 0 {
        nets
    } else {
        write_nets(nets, idx.drop_last(), vals).insert(idx.last(), vals[idx.len() - 1])
    }
}

/// The outputs of gate `g` of the registry `gates` on inputs `ins`.
pub open spec fn eval_gate(gates: Seq<Gate>, g: int, ins: Seq<bool>) -> Result<Seq<bool>, EvalError>
    decreases g, 2int, 0int,
{
    if g < 0 || g >= gates.len() {
        Err(EvalError::UnknownGate)
    } else {
        match gates[g] {
            Gate::Builtin(b) => eval_builtin(b.op, ins),
            Gate::Defined(d) => {
                if ins.len() != d.inputs {
                    Err(EvalError::ArityMismatch)
                } else {
                    match run_from(gates, g, d.process@, 0, initial_nets(ins), 0) {
                        Ok(nets) => read_nets(nets, d.outputs@),
                        Err(e) => Err(e),
                    }
                }
            },
        }
    }
}

/// Runs the body `process` of gate `g` from instruction `pc`, having
/// already executed `steps` instructions; the nets at the end.
pub open spec fn run_from(
    gates: Seq<Gate>,
    g: int,
    process: Seq<Step>,
    pc: int,
    nets: Map<usize, bool>,
    steps: int,
) -> Result<Map<usize, bool>, EvalError>
    decreases g, 1int, STEP_LIMIT - steps,
{
    if pc < 0 || pc >= process.len() {
        Ok(nets)
    } else if steps >= STEP_LIMIT || steps < 0 {
        Err(EvalError::StepLimitExceeded)
    } else {
        match process[pc] {
            Step::Jump(t) => run_from(gates, g, process, t as int, nets, steps + 1),
            Step::Invoke(ins) => match invoke(gates, g, ins, nets) {
                Ok(n2) => run_from(gates, g, process, pc + 1, n2, steps + 1),
                Err(e) => Err(e),
            },
        }
    }
}

/// One invoke instruction in the body of gate `g`, on the nets `nets`.
pub open spec fn invoke(gates: Seq<Gate>, g: int, ins: Instruction, nets: Map<usize, bool>) -> Result<
    Map<usize, bool>,
    EvalError,
>
    decreases g, 0int, 0int,
{
    if ins.gate >= g {
        Err(EvalError::UnknownGate)
    } else {
        match read_nets(nets, ins.inputs@) {
            Err(e) => Err(e),
            Ok(vals) => match eval_gate(gates, ins.gate as int, vals) {
                Ok(outs) => if outs.len() == ins.outputs@.len() {
                    Ok(write_nets(nets, ins.outputs@, outs))
                } else {
                    Err(EvalError::ArityMismatch)
                },
                Err(e) => Err(e),
            },
        }
    }
}


/// Gate `g`'s body only invokes gates registered before it and only jumps
/// inside itself.
pub open spec fn defined_wf(d: DefinedGate, g: int) -> bool {
    &&& d.inputs > 0
    &&& forall|k: int|
        0 <= k < d.process@.len() ==> match #[trigger] d.process@[k] {
            Step::Invoke(ins) => ins.gate < g,
            Step::Jump(t) => t < d.process@.len(),
        }
}

pub open spec fn gate_wf(gate: Gate, g: int) -> bool {
    match gate {
        Gate::Builtin(_) => true,
        Gate::Defined(d) => defined_wf(d, g),
    }
}

/// Registry of named gates: `names[i]` names `gates[i]`.
pub struct App {
    pub names: Vec<String>,
    pub gates: Vec<Gate>,
}

impl Instruction {
    pub fn new(inputs: Vec<usize>, gate: usize, outputs: Vec<usize>) -> (r: Self)
        ensures
            r.inputs == inputs,
            r.gate == gate,
            r.outputs == outputs,
    {
        Instruction { inputs, gate, outputs }
    }

    pub fn inputs(&self) -> (r: &Vec<usize>)
        ensures
            r == &self.inputs,
    {
        &self.inputs
    }

    pub fn outputs(&self) -> (r: &Vec<usize>)
        ensures
            r == &self.outputs,
    {
        &self.outputs
    }

    /// Executes this instruction inside the body of gate `caller`.
    pub fn calculate(&self, app: &App, caller: usize, vars: &mut HashMap<usize, bool>) -> (r: Result<
        (),
        EvalError,
    >)
        requires
            app.wf(),
            caller < app.gates@.len(),
        ensures
            match r {
                Ok(_) => invoke(app.gates@, caller as int, *self, old(vars)@) == Ok::<
                    Map<usize, bool>,
                    EvalError,
                >(final(vars)@),
                Err(e) => invoke(app.gates@, caller as int, *self, old(vars)@) == Err::<
                    Map<usize, bool>,
                    EvalError,
                >(e),
            },
            r is Err ==> final(vars)@ == old(vars)@,
        decreases caller, 0int, 0int,
    {
        if self.gate >= caller {
            return Err(EvalError::UnknownGate);
        }
        let ghost nets0 = vars@;
        let mut ins: Vec<bool> = Vec::new();
        let mut k: usize = 0;
        while k < self.inputs.len()
            invariant
                k <= self.inputs@.len(),
                self.gate < caller,
                vars@ == nets0,
                ins@ == self.inputs@.take(k as int).map_values(|n: usize| nets0[n]),
                forall|j: int| 0 <= j < k ==> nets0.contains_key(#[trigger] self.inputs@[j]),
            decreases self.inputs@.len() - k,
        {
            match vars.get(&self.inputs[k]) {
                Some(v) => {
                    ins.push(*v);
                },
                None => {
                    assert(!nets0.contains_key(self.inputs@[k as int]));
                    assert(read_nets(nets0, self.inputs@) is Err);
                    return Err(EvalError::UndefinedNet);
                },
            }
            proof {
                assert(self.inputs@.take(k + 1) =~= self.inputs@.take(k as int).push(self.inputs@[k as int]));
            }
            k += 1;
        }
        assert(self.inputs@.take(k as int) =~= self.inputs@);
        let outs = match app.calculate(self.gate, ins) {
            Ok(v) => v,
            Err(e) => {
                return Err(e);
            },
        };
        if outs.len() != self.outputs.len() {
            return Err(EvalError::ArityMismatch);
        }
        let mut k: usize = 0;
        while k < self.outputs.len()
            invariant
                k <= self.outputs@.len(),
                outs@.len() == self.outputs@.len(),
                vars@ == write_nets(nets0, self.outputs@.take(k as int), outs@),
            decreases self.outputs@.len() - k,
        {
            vars.insert(self.outputs[k], outs[k]);
            proof {
                assert(self.outputs@.take(k + 1).drop_last() =~= self.outputs@.take(k as int));
            }
            k += 1;
        }
        assert(self.outputs@.take(k as int) =~= self.outputs@);
        Ok(())
    }
}

impl DefinedGate {
    pub fn new(inputs: usize, process: Vec<Step>, outputs: Vec<usize>) -> (r: Self)
        ensures
            r.inputs == inputs,
            r.process == process,
            r.outputs == outputs,
    {
        DefinedGate { inputs, process, outputs }
    }

    /// Evaluates this gate, which stands at index `index` of `app`.
    pub fn calculate(&self, app: &App, index: usize, inputs: Vec<bool>) -> (r: Result<
        Vec<bool>,
        EvalError,
    >)
        requires
            app.wf(),
            index < app.gates@.len(),
            app.gates@[index as int] == Gate::Defined(*self),
        ensures
            same_result(r, eval_gate(app.gates@, index as int, inputs@)),
            inputs@.len() != self.inputs ==> r == Err::<Vec<bool>, EvalError>(EvalError::ArityMismatch),
            r is Ok ==> r->Ok_0@.len() == self.outputs@.len(),
        decreases index, 1int, 0int,
    {
        proof {
            lemma_output_length(app.gates@, index as int, inputs@);
        }
        if inputs.len() != self.inputs {
            return Err(EvalError::ArityMismatch);
        }
        let mut vars: HashMap<usize, bool> = HashMap::new();
        let mut i: usize = 0;
        while i < inputs.len()
            invariant
                i <= inputs@.len(),
                vars@ =~= Map::new(|k: usize| (k as int) < i, |k: usize| inputs@[k as int]),
            decreases inputs@.len() - i,
        {
            vars.insert(i, inputs[i]);
            assert(vars@ =~= Map::new(|k: usize| (k as int) < i + 1, |k: usize| inputs@[k as int]));
            i += 1;
        }
        assert(vars@ =~= initial_nets(inputs@));
        let mut pc: usize = 0;
        let mut steps: usize = 0;
        while pc < self.process.len()
            invariant
                app.wf(),
                index < app.gates@.len(),
                app.gates@[index as int] == Gate::Defined(*self),
                inputs@.len() == self.inputs,
                steps <= STEP_LIMIT,
                run_from(app.gates@, index as int, self.process@, 0, initial_nets(inputs@), 0)
                    == run_from(app.gates@, index as int, self.process@, pc as int, vars@, steps as int),
            decreases STEP_LIMIT - steps,
        {
            if steps >= STEP_LIMIT {
                assert(run_from(app.gates@, index as int, self.process@, pc as int, vars@, steps as int)
                    == Err::<Map<usize, bool>, EvalError>(EvalError::StepLimitExceeded));
                return Err(EvalError::StepLimitExceeded);
            }
            let ghost nets_before = vars@;
            match &self.process[pc] {
                Step::Jump(t) => {
                    pc = *t;
                },
                Step::Invoke(ins) => {
                    match ins.calculate(app, index, &mut vars) {
                        Ok(_) => {},
                        Err(e) => {
                            assert(run_from(app.gates@, index as int, self.process@, pc as int, nets_before, steps as int)
                                == Err::<Map<usize, bool>, EvalError>(e));
                            return Err(e);
                        },
                    }
                    pc += 1;
                },
            }
            steps += 1;
        }
        let mut out: Vec<bool> = Vec::new();
        let mut k: usize = 0;
        while k < self.outputs.len()
            invariant
                k <= self.outputs@.len(),
                inputs@.len() == self.inputs,
                app.gates@[index as int] == Gate::Defined(*self),
                index < app.gates@.len(),
                run_from(app.gates@, index as int, self.process@, 0, initial_nets(inputs@), 0)
                    == Ok::<Map<usize, bool>, EvalError>(vars@),
                out@ == self.outputs@.take(k as int).map_values(|n: usize| vars@[n]),
                forall|j: int| 0 <= j < k ==> vars@.contains_key(#[trigger] self.outputs@[j]),
            decreases self.outputs@.len() - k,
        {
            match vars.get(&self.outputs[k]) {
                Some(v) => {
                    out.push(*v);
                },
                None => {
                    assert(!vars@.contains_key(self.outputs@[k as int]));
                    assert(read_nets(vars@, self.outputs@) is Err);
                    return Err(EvalError::UndefinedNet);
                },
            }
            proof {
                assert(self.outputs@.take(k + 1) =~= self.outputs@.take(k as int).push(self.outputs@[k as int]));
            }
            k += 1;
        }
        assert(self.outputs@.take(k as int) =~= self.outputs@);
        Ok(out)
    }
}

impl App {
    /// Names are unique, one per gate, and every gate is well formed at its index.
    pub open spec fn wf(&self) -> bool {
        &&& self.names@.len() == self.gates@.len()
        &&& forall|i: int, j: int|
            0 <= i < j < self.names@.len() ==> #[trigger] self.names@[i]@ != #[trigger] self.names@[j]@
        &&& forall|g: int| 0 <= g < self.gates@.len() ==> gate_wf(#[trigger] self.gates@[g], g)
    }

    /// Whether some registered gate carries the name `name`.
    pub open spec fn has_name(&self, name: Seq<char>) -> bool {
        exists|i: int| 0 <= i < self.names@.len() && #[trigger] self.names@[i]@ == name
    }

    /// The registry holding only the builtins AND and NOT, in that order.
    pub fn with_defaults() -> (r: Self)
        ensures
            r.wf(),
            r.names@.len() == 2,
            r.names@[0]@ == "AND"@,
            r.names@[1]@ == "NOT"@,
            r.gates@.len() == 2,
            r.gates@[0] == Gate::Builtin(BuiltinGate { op: BuiltinOp::And }),
            r.gates@[1] == Gate::Builtin(BuiltinGate { op: BuiltinOp::Not }),
    {
        let names = vec!["AND".to_owned(), "NOT".to_owned()];
        let gates = vec![
            Gate::Builtin(BuiltinGate::new(BuiltinOp::And)),
            Gate::Builtin(BuiltinGate::new(BuiltinOp::Not)),
        ];
        proof {
            reveal_strlit("AND");
            reveal_strlit("NOT");
            assert(names@[0]@[0] != names@[1]@[0]);
        }
        App { names, gates }
    }

    /// Index of a gate named `name`, if one is registered.
    pub fn find(&self, name: &String) -> (r: Option<usize>)
        requires
            self.wf(),
        ensures
            match r {
                Some(i) => i < self.names@.len() && self.names@[i as int]@ == name@,
                None => !self.has_name(name@),
            },
    {
        let mut i: usize = 0;
        while i < self.names.len()
            invariant
                i <= self.names@.len(),
                forall|j: int| 0 <= j < i ==> #[trigger] self.names@[j]@ != name@,
            decreases self.names@.len() - i,
        {
            if self.names[i] == *name {
                return Some(i);
            }
            i += 1;
        }
        None
    }

    /// Adds `gate` under `name`; a name already in use is refused and
    /// leaves the registry as it was.
    pub fn register(&mut self, name: String, gate: Gate) -> (r: Result<(), BuildError>)
        requires
            old(self).wf(),
            gate_wf(gate, old(self).gates@.len() as int),
        ensures
            final(self).wf(),
            match r {
                Ok(_) => {
                    &&& !old(self).has_name(name@)
                    &&& final(self).names@ == old(self).names@.push(name)
                    &&& final(self).gates@ == old(self).gates@.push(gate)
                },
                Err(e) => {
                    &&& old(self).has_name(name@)
                    &&& e == BuildError::DuplicateGateName
                    &&& *final(self) == *old(self)
                },
            },
    {
        if self.find(&name).is_some() {
            return Err(BuildError::DuplicateGateName);
        }
        let ghost g0 = self.gates@;
        self.names.push(name);
        self.gates.push(gate);
        assert forall|g: int| 0 <= g < self.gates@.len() implies gate_wf(#[trigger] self.gates@[g], g) by {
            if g < g0.len() {
                assert(self.gates@[g] == g0[g]);
            }
        }
        Ok(())
    }

    /// Evaluates a gate named `name` on `inputs`.
    pub fn evaluate(&self, name: &String, inputs: Vec<bool>) -> (r: Result<Vec<bool>, EvalError>)
        requires
            self.wf(),
        ensures
            !self.has_name(name@) ==> r == Err::<Vec<bool>, EvalError>(EvalError::UnknownGate),
            forall|i: int|
                0 <= i < self.names@.len() && #[trigger] self.names@[i]@ == name@ ==> same_result(
                    r,
                    eval_gate(self.gates@, i, inputs@),
                ),
    {
        match self.find(name) {
            Some(i) => self.calculate(i, inputs),
            None => Err(EvalError::UnknownGate),
        }
    }

    /// Evaluates gate number `gate` on `inputs`.
    pub fn calculate(&self, gate: usize, inputs: Vec<bool>) -> (r: Result<Vec<bool>, EvalError>)
        requires
            self.wf(),
            gate < self.gates@.len(),
        ensures
            same_result(r, eval_gate(self.gates@, gate as int, inputs@)),
            inputs@.len() != self.gates@[gate as int].arity() ==> r == Err::<Vec<bool>, EvalError>(
                EvalError::ArityMismatch,
            ),
            r is Ok ==> r->Ok_0@.len() == self.gates@[gate as int].output_count(),
        decreases gate, 2int, 0int,
    {
        proof {
            lemma_output_length(self.gates@, gate as int, inputs@);
        }
        match &self.gates[gate] {
            Gate::Builtin(b) => b.calculate(inputs),
            Gate::Defined(d) => d.calculate(self, gate, inputs),
        }
    }
}

/// A gate that returns outputs returns exactly as many as it declares;
/// one on inputs of the wrong length returns `ArityMismatch`.
pub proof fn lemma_output_length(gates: Seq<Gate>, g: int, ins: Seq<bool>)
    requires
        0 <= g < gates.len(),
    ensures
        eval_gate(gates, g, ins) is Ok ==> eval_gate(gates, g, ins)->Ok_0.len() == gates[g].output_count(),
        ins.len() != gates[g].arity() ==> eval_gate(gates, g, ins) == Err::<Seq<bool>, EvalError>(
            EvalError::ArityMismatch,
        ),
{
}

/// A two-input gate whose body is one invoke of AND on nets 0 and 1, whose
/// result net is also its declared output, behaves as AND on every input.
pub proof fn lemma_and_wrapper(gates: Seq<Gate>, g: int, a: int, ins: Seq<bool>)
    requires
        0 <= a < g < gates.len(),
        gates[a] == Gate::Builtin(BuiltinGate { op: BuiltinOp::And }),
        gates[g] is Defined,
        gates[g]->Defined_0.inputs == 2,
        gates[g]->Defined_0.process@.len() == 1,
        gates[g]->Defined_0.process@[0] is Invoke,
        gates[g]->Defined_0.process@[0]->Invoke_0.gate == a,
        gates[g]->Defined_0.process@[0]->Invoke_0.inputs@ == seq![0usize, 1usize],
        gates[g]->Defined_0.process@[0]->Invoke_0.outputs@.len() == 1,
        gates[g]->Defined_0.outputs@ == gates[g]->Defined_0.process@[0]->Invoke_0.outputs@,
    ensures
        eval_gate(gates, g, ins) == eval_gate(gates, a, ins),
        ins.len() == 2 ==> eval_gate(gates, g, ins) == Ok::<Seq<bool>, EvalError>(seq![ins[0] && ins[1]]),
{
    if ins.len() == 2 {
        let d = gates[g]->Defined_0;
        let i = d.process@[0]->Invoke_0;
        let nets = initial_nets(ins);
        assert(nets.contains_key(0usize) && nets.contains_key(1usize));
        assert(read_nets(nets, i.inputs@) =~= Ok::<Seq<bool>, EvalError>(ins)) by {
            assert(i.inputs@.map_values(|n: usize| nets[n]) =~= ins);
        }
        let v = seq![ins[0] && ins[1]];
        assert(eval_gate(gates, a, ins) == Ok::<Seq<bool>, EvalError>(v)) by {
            assert(op_apply(BuiltinOp::And, ins) =~= v);
        }
        let n2 = write_nets(nets, i.outputs@, v);
        assert(i.outputs@.drop_last() =~= Seq::<usize>::empty());
        assert(write_nets(nets, i.outputs@.drop_last(), v) == nets);
        assert(n2 == nets.insert(i.outputs@[0], v[0]));
        assert(invoke(gates, g, i, nets) == Ok::<Map<usize, bool>, EvalError>(n2));
        assert(run_from(gates, g, d.process@, 1, n2, 1) == Ok::<Map<usize, bool>, EvalError>(n2));
        assert(run_from(gates, g, d.process@, 0, nets, 0) == Ok::<Map<usize, bool>, EvalError>(n2));
        assert(d.outputs@.map_values(|n: usize| n2[n]) =~= v);
        assert(n2.contains_key(d.outputs@[0]));
        assert(read_nets(n2, d.outputs@) == Ok::<Seq<bool>, EvalError>(v));
    }
}

} // verus!
