use crate::gate::{
    App, BuildError, BuiltinGate, BuiltinOp, DefinedGate, Gate, GateView, Instruction, Step, StepView,
    defined_wf, gate_view, gate_views, step_view, step_views,
};
use crate::lexer::{LexInstruction, label_view};
use vstd::prelude::*;

verus! {

/// A definition still being read: its body with jumps not yet resolved.
/// `labels[k]` is the label of instruction `k`; `targets[k]` is the label a
/// jump at `k` names, and `None` for an invoke.
pub struct OpenDef {
    pub name: String,
    pub inputs: usize,
    pub process: Vec<Step>,
    pub labels: Vec<Option<String>>,
    pub targets: Vec<Option<String>>,
    pub outputs: Option<Vec<usize>>,
}

/// Instruction `j` carries the label `t`.
pub open spec fn label_at(labels: Seq<Option<String>>, j: int, t: Seq<char>) -> bool {
    labels[j] is Some && labels[j]->Some_0@ == t
}

/// `j` is the first instruction that carries the label `t`.
pub open spec fn first_label(labels: Seq<Option<String>>, j: int, t: Seq<char>) -> bool {
    &&& 0 <= j < labels.len()
    &&& label_at(labels, j, t)
    &&& forall|i: int| 0 <= i < j ==> !label_at(labels, i, t)
}

impl OpenDef {
    /// Invokes reach gates below `n`; the three body vectors line up.
    pub open spec fn wf(&self, n: int) -> bool {
        &&& self.inputs > 0
        &&& self.process@.len() == self.labels@.len()
        &&& self.process@.len() == self.targets@.len()
        &&& forall|k: int|
            0 <= k < self.process@.len() && (#[trigger] self.targets@[k]) is None ==> match self.process@[k] {
                Step::Invoke(ins) => ins.gate < n,
                Step::Jump(_) => false,
            }
    }

    /// Every jump names a label carried in this definition.
    pub open spec fn labels_resolve(&self) -> bool {
        targets_resolve(self.labels@, self.targets@)
    }

    /// `d` is this definition with each jump sent to the first instruction
    /// that carries its label.
    pub open spec fn sealed_as(&self, d: DefinedGate) -> bool {
        &&& self.outputs == Some(d.outputs)
        &&& d.inputs == self.inputs
        &&& jumps_resolved(self.process@, self.labels@, self.targets@, d.process@)
    }

    /// Resolves the jumps and closes the definition.
    pub fn seal(self) -> (r: Result<DefinedGate, BuildError>)
        requires
            self.process@.len() == self.labels@.len(),
            self.process@.len() == self.targets@.len(),
        ensures
            self.outputs is None ==> r == Err::<DefinedGate, BuildError>(
                BuildError::MissingOutputDeclaration,
            ),
            self.outputs is Some && !self.labels_resolve() ==> r == Err::<DefinedGate, BuildError>(
                BuildError::UnknownLabel,
            ),
            self.outputs is Some && self.labels_resolve() ==> r is Ok,
            r matches Ok(d) ==> self.sealed_as(d),
    {
        let OpenDef { name: _, inputs, process, labels, targets, outputs } = self;
        let outputs = match outputs {
            Some(o) => o,
            None => {
                return Err(BuildError::MissingOutputDeclaration);
            },
        };
        match resolve_jumps(process, &labels, &targets) {
            Ok(process) => Ok(DefinedGate::new(inputs, process, outputs)),
            Err(e) => Err(e),
        }
    }
}

/// Every jump target of `targets` is carried by some entry of `labels`.
pub open spec fn targets_resolve(labels: Seq<Option<String>>, targets: Seq<Option<String>>) -> bool {
    forall|k: int|
        0 <= k < targets.len() && (#[trigger] targets[k]) is Some ==> exists|j: int|
            0 <= j < labels.len() && label_at(labels, j, targets[k]->Some_0@)
}

/// `out` is `process` with each jump at `k` sent to the first instruction
/// that carries the label `targets[k]`.
pub open spec fn jumps_resolved(
    process: Seq<Step>,
    labels: Seq<Option<String>>,
    targets: Seq<Option<String>>,
    out: Seq<Step>,
) -> bool {
    &&& out.len() == process.len()
    &&& forall|k: int|
        0 <= k < process.len() ==> match #[trigger] targets[k] {
            None => out[k] == process[k],
            Some(t) => exists|j: int| first_label(labels, j, t@) && out[k] == Step::Jump(j as usize),
        }
}

/// Replaces each jump of `process` by one to the instruction its label names.
pub fn resolve_jumps(process: Vec<Step>, labels: &Vec<Option<String>>, targets: &Vec<Option<String>>) -> (r: Result<
    Vec<Step>,
    BuildError,
>)
    requires
        process@.len() == labels@.len(),
        process@.len() == targets@.len(),
    ensures
        match r {
            Ok(out) => targets_resolve(labels@, targets@) && jumps_resolved(process@, labels@, targets@, out@),
            Err(e) => !targets_resolve(labels@, targets@) && e == BuildError::UnknownLabel,
        },
{
    let ghost pre = process@;
    let mut process = process;
    let mut k: usize = 0;
    while k < targets.len()
        invariant
            k <= targets@.len(),
            process@.len() == targets@.len(),
            pre.len() == targets@.len(),
            forall|i: int| 0 <= i < k ==> (#[trigger] targets@[i]) is Some ==> exists|j: int|
                0 <= j < labels@.len() && label_at(labels@, j, targets@[i]->Some_0@),
            forall|i: int|
                0 <= i < process@.len() ==> match #[trigger] targets@[i] {
                    None => process@[i] == pre[i],
                    Some(t) => i < k ==> exists|j: int|
                        first_label(labels@, j, t@) && process@[i] == Step::Jump(j as usize),
                },
        decreases targets@.len() - k,
    {
        match &targets[k] {
            None => {},
            Some(t) => {
                match find_label(labels, t) {
                    Some(j) => {
                        process.set(k, Step::Jump(j));
                    },
                    None => {
                        assert(!targets_resolve(labels@, targets@));
                        return Err(BuildError::UnknownLabel);
                    },
                }
            },
        }
        k += 1;
    }
    Ok(process)
}

/// The index of the first entry of `labels` that is `t`.
fn find_label(labels: &Vec<Option<String>>, t: &String) -> (r: Option<usize>)
    ensures
        match r {
            Some(j) => first_label(labels@, j as int, t@),
            None => forall|j: int| 0 <= j < labels@.len() ==> !label_at(labels@, j, t@),
        },
{
    let mut j: usize = 0;
    while j < labels.len()
        invariant
            j <= labels@.len(),
            forall|i: int| 0 <= i < j ==> !label_at(labels@, i, t@),
        decreases labels@.len() - j,
    {
        match &labels[j] {
            Some(l) => {
                if *l == *t {
                    return Some(j);
                }
            },
            None => {},
        }
        j += 1;
    }
    None
}

/// A sealed definition is well formed at every registry size its invokes fit.
pub proof fn lemma_sealed_wf(open: OpenDef, d: DefinedGate, n: int)
    requires
        open.wf(n),
        open.sealed_as(d),
    ensures
        defined_wf(d, n),
{
    assert forall|k: int| 0 <= k < d.process@.len() implies match #[trigger] d.process@[k] {
        Step::Invoke(ins) => ins.gate < n,
        Step::Jump(t) => t < d.process@.len(),
    } by {
        match open.targets@[k] {
            None => {},
            Some(t) => {},
        }
    }
}

/// The name a `Def` line opens, if it is one.
pub open spec fn def_name(l: LexInstruction) -> Option<Seq<char>> {
    match l {
        LexInstruction::Def { name, .. } => Some(name@),
        _ => None,
    }
}

/// The names that the `Def` lines of `lex` open, in order.
pub open spec fn def_names(lex: Seq<LexInstruction>) -> Seq<Seq<char>>
    decreases lex.len(),
{
    if lex.len() == 0 {
        Seq::empty()
    } else {
        match def_name(lex.last()) {
            Some(n) => def_names(lex.drop_last()).push(n),
            None => def_names(lex.drop_last()),
        }
    }
}

/// The names of a registry, as character sequences.
pub open spec fn names_of(names: Seq<String>) -> Seq<Seq<char>> {
    names.map_values(|n: String| n@)
}

/// A definition being read. `steps[k]` is a placeholder jump where
/// `targets[k]` names a label.
pub struct OpenModel {
    pub name: Seq<char>,
    pub inputs: usize,
    pub steps: Seq<StepView>,
    pub labels: Seq<Option<Seq<char>>>,
    pub targets: Seq<Option<Seq<char>>>,
    pub outputs: Option<Seq<usize>>,
}

/// The registry built so far and the definition being read.
pub struct BuildModel {
    pub names: Seq<Seq<char>>,
    pub gates: Seq<GateView>,
    pub open: Option<OpenModel>,
}

/// The first instruction that carries the label `t`.
pub open spec fn first_index(labels: Seq<Option<Seq<char>>>, t: Option<Seq<char>>) -> int {
    choose|j: int| 0 <= j < labels.len() && labels[j] == t && forall|i: int| 0 <= i < j ==> labels[i] != t
}

/// The body of `o` with each jump sent to the first instruction carrying its label.
pub open spec fn resolved_steps(o: OpenModel) -> Seq<StepView> {
    Seq::new(
        o.steps.len(),
        |k: int|
            if o.targets[k] is Some {
                StepView::Jump(first_index(o.labels, o.targets[k]) as usize)
            } else {
                o.steps[k]
            },
    )
}

/// The index of the registered gate named `n`.
pub open spec fn name_index(names: Seq<Seq<char>>, n: Seq<char>) -> int {
    choose|i: int| 0 <= i < names.len() && names[i] == n
}

/// Every jump target is a label of the same definition.
pub open spec fn labels_ok(labels: Seq<Option<Seq<char>>>, targets: Seq<Option<Seq<char>>>) -> bool {
    forall|k: int|
        0 <= k < targets.len() && (#[trigger] targets[k]) is Some ==> exists|j: int|
            0 <= j < labels.len() && labels[j] == targets[k]
}

pub open spec fn label_views(l: Seq<Option<String>>) -> Seq<Option<Seq<char>>> {
    l.map_values(|x: Option<String>| label_view(x))
}

/// The names and gates after closing the open definition, or why it
/// cannot close.
pub open spec fn seal_model(m: BuildModel) -> Result<(Seq<Seq<char>>, Seq<GateView>), BuildError> {
    match m.open {
        None => Ok((m.names, m.gates)),
        Some(o) => if o.outputs is None {
            Err(BuildError::MissingOutputDeclaration)
        } else if !labels_ok(o.labels, o.targets) {
            Err(BuildError::UnknownLabel)
        } else {
            Ok(
                (
                    m.names.push(o.name),
                    m.gates.push(
                        GateView::Defined {
                            inputs: o.inputs,
                            process: resolved_steps(o),
                            outputs: o.outputs->Some_0,
                        },
                    ),
                ),
            )
        },
    }
}

/// The effect of one instruction on the build.
pub open spec fn step_model(m: BuildModel, ins: LexInstruction) -> Result<BuildModel, BuildError> {
    match ins {
        LexInstruction::Def { name, inputs } => match seal_model(m) {
            Err(e) => Err(e),
            Ok((ns, gs)) => if ns.contains(name@) {
                Err(BuildError::DuplicateGateName)
            } else if inputs == 0 {
                Err(BuildError::ZeroArity)
            } else {
                Ok(
                    BuildModel {
                        names: ns,
                        gates: gs,
                        open: Some(
                            OpenModel {
                                name: name@,
                                inputs,
                                steps: Seq::empty(),
                                labels: Seq::empty(),
                                targets: Seq::empty(),
                                outputs: None,
                            },
                        ),
                    },
                )
            },
        },
        LexInstruction::Gate { inputs, gate, outputs, label } => match m.open {
            None => Err(BuildError::InstructionOutsideDefinition),
            Some(o) => if !m.names.contains(gate@) {
                Err(BuildError::UnknownGate)
            } else {
                Ok(
                    BuildModel {
                        names: m.names,
                        gates: m.gates,
                        open: Some(
                            OpenModel {
                                steps: o.steps.push(
                                    StepView::Invoke {
                                        inputs: inputs@,
                                        gate: name_index(m.names, gate@) as usize,
                                        outputs: outputs@,
                                    },
                                ),
                                labels: o.labels.push(label_view(label)),
                                targets: o.targets.push(None),
                                ..o
                            },
                        ),
                    },
                )
            },
        },
        LexInstruction::Goto { goto, label } => match m.open {
            None => Err(BuildError::InstructionOutsideDefinition),
            Some(o) => Ok(
                BuildModel {
                    names: m.names,
                    gates: m.gates,
                    open: Some(
                        OpenModel {
                            steps: o.steps.push(StepView::Jump(0)),
                            labels: o.labels.push(label_view(label)),
                            targets: o.targets.push(Some(goto@)),
                            ..o
                        },
                    ),
                },
            ),
        },
        LexInstruction::Out { outputs } => match m.open {
            None => Err(BuildError::InstructionOutsideDefinition),
            Some(o) => Ok(
                BuildModel { names: m.names, gates: m.gates, open: Some(OpenModel { outputs: Some(outputs@), ..o }) },
            ),
        },
    }
}

/// The build after the instructions `lex`, from the builtins AND and NOT.
pub open spec fn run_model(lex: Seq<LexInstruction>) -> Result<BuildModel, BuildError>
    decreases lex.len(),
{
    if lex.len() == 0 {
        Ok(
            BuildModel {
                names: seq!["AND"@, "NOT"@],
                gates: seq![GateView::Builtin(BuiltinOp::And), GateView::Builtin(BuiltinOp::Not)],
                open: None,
            },
        )
    } else {
        match run_model(lex.drop_last()) {
            Err(e) => Err(e),
            Ok(m) => step_model(m, lex.last()),
        }
    }
}

/// The names and gates of the registry that `lex` builds, or the error it
/// fails with.
pub open spec fn build_result(lex: Seq<LexInstruction>) -> Result<(Seq<Seq<char>>, Seq<GateView>), BuildError> {
    match run_model(lex) {
        Err(e) => Err(e),
        Ok(m) => seal_model(m),
    }
}

/// A build that failed on a prefix fails on the whole stream with the same error.
proof fn lemma_run_err_extends(lex: Seq<LexInstruction>, k: int, e: BuildError)
    requires
        0 <= k <= lex.len(),
        run_model(lex.take(k)) == Err::<BuildModel, BuildError>(e),
    ensures
        run_model(lex) == Err::<BuildModel, BuildError>(e),
        build_result(lex) == Err::<(Seq<Seq<char>>, Seq<GateView>), BuildError>(e),
    decreases lex.len() - k,
{
    if k < lex.len() {
        assert(lex.take(k + 1).drop_last() =~= lex.take(k));
        lemma_run_err_extends(lex, k + 1, e);
    } else {
        assert(lex.take(k) =~= lex);
    }
}

proof fn lemma_labels_bridge(labels: Seq<Option<String>>, targets: Seq<Option<String>>)
    ensures
        targets_resolve(labels, targets) == labels_ok(label_views(labels), label_views(targets)),
{
    let lv = label_views(labels);
    let tv = label_views(targets);
    if targets_resolve(labels, targets) {
        assert forall|k: int| 0 <= k < tv.len() && (#[trigger] tv[k]) is Some implies exists|j: int|
            0 <= j < lv.len() && lv[j] == tv[k] by {
            assert(targets[k] is Some);
            let j = choose|j: int| 0 <= j < labels.len() && label_at(labels, j, targets[k]->Some_0@);
            assert(lv[j] == tv[k]);
        }
    }
    if labels_ok(lv, tv) {
        assert forall|k: int| 0 <= k < targets.len() && (#[trigger] targets[k]) is Some implies exists|j: int|
            0 <= j < labels.len() && label_at(labels, j, targets[k]->Some_0@) by {
            assert(tv[k] is Some);
            let j = choose|j: int| 0 <= j < lv.len() && lv[j] == tv[k];
            assert(label_at(labels, j, targets[k]->Some_0@));
        }
    }
}

/// The model of a registry under construction.
pub open spec fn model_of(app: App, open: Option<OpenDef>) -> BuildModel {
    BuildModel {
        names: names_of(app.names@),
        gates: gate_views(app.gates@),
        open: match open {
            None => None,
            Some(d) => Some(model_of_open(d)),
        },
    }
}

/// The first instruction carrying a label is the one `first_index` picks.
proof fn lemma_first_index(labels: Seq<Option<String>>, j: int, t: Seq<char>)
    requires
        first_label(labels, j, t),
    ensures
        first_index(label_views(labels), Some(t)) == j,
{
    let lv = label_views(labels);
    assert(lv[j] == Some(t));
    assert forall|i: int| 0 <= i < j implies lv[i] != Some(t) by {
        assert(!label_at(labels, i, t));
    }
    let k = first_index(lv, Some(t));
    if k < j {
        assert(label_at(labels, k, t));
    }
}

/// A sealed definition has the view that the model gives its closing.
proof fn lemma_sealed_view(o: OpenDef, d: DefinedGate)
    requires
        o.sealed_as(d),
        o.process@.len() == o.labels@.len(),
        o.process@.len() == o.targets@.len(),
    ensures
        gate_view(Gate::Defined(d)) == (GateView::Defined {
            inputs: o.inputs,
            process: resolved_steps(model_of_open(o)),
            outputs: d.outputs@,
        }),
{
    let m = model_of_open(o);
    assert forall|k: int| 0 <= k < d.process@.len() implies step_views(d.process@)[k] == resolved_steps(m)[k] by {
        match o.targets@[k] {
            None => {},
            Some(t) => {
                let j = choose|j: int| first_label(o.labels@, j, t@) && d.process@[k] == Step::Jump(j as usize);
                lemma_first_index(o.labels@, j, t@);
            },
        }
    }
    assert(step_views(d.process@) =~= resolved_steps(m));
}

/// The model of a definition being read.
pub open spec fn model_of_open(d: OpenDef) -> OpenModel {
    OpenModel {
        name: d.name@,
        inputs: d.inputs,
        steps: step_views(d.process@),
        labels: label_views(d.labels@),
        targets: label_views(d.targets@),
        outputs: match d.outputs {
            Some(o) => Some(o@),
            None => None,
        },
    }
}

/// Registered names being distinct, a name's index is the one `name_index` picks.
proof fn lemma_name_index(app: App, g: int)
    requires
        app.wf(),
        0 <= g < app.names@.len(),
    ensures
        name_index(names_of(app.names@), app.names@[g]@) == g,
{
    let ns = names_of(app.names@);
    assert(ns[g] == app.names@[g]@);
    let k = name_index(ns, app.names@[g]@);
    assert(app.names@[k]@ == ns[k]);
}

/// A copy of a list of nets.
fn copy_nets(v: &Vec<usize>) -> (r: Vec<usize>)
    ensures
        r@ == v@,
{
    let mut r: Vec<usize> = Vec::new();
    let mut i: usize = 0;
    while i < v.len()
        invariant
            i <= v@.len(),
            r@ == v@.take(i as int),
        decreases v@.len() - i,
    {
        r.push(v[i]);
        assert(v@.take(i + 1) =~= v@.take(i as int).push(v@[i as int]));
        i += 1;
    }
    assert(v@.take(i as int) =~= v@);
    r
}

/// A copy of a label.
fn copy_label(l: &Option<String>) -> (r: Option<String>)
    ensures
        label_view(r) == label_view(*l),
{
    match l {
        Some(x) => Some(x.clone()),
        None => None,
    }
}

/// Whether a registry name is among the names of the model.
proof fn lemma_has_name(app: App, x: Seq<char>)
    ensures
        app.has_name(x) == names_of(app.names@).contains(x),
{
    let ns = names_of(app.names@);
    if app.has_name(x) {
        let i = choose|i: int| 0 <= i < app.names@.len() && #[trigger] app.names@[i]@ == x;
        assert(ns[i] == x);
    }
    if ns.contains(x) {
        let i = choose|i: int| 0 <= i < ns.len() && ns[i] == x;
        assert(app.names@[i]@ == x);
    }
}

/// Seals `open` and registers it in `app`.
fn close(app: &mut App, open: OpenDef) -> (r: Result<(), BuildError>)
    requires
        old(app).wf(),
        open.wf(old(app).gates@.len() as int),
        !old(app).has_name(open.name@),
    ensures
        final(app).wf(),
        match r {
            Ok(_) => seal_model(model_of(*old(app), Some(open))) == Ok::<(Seq<Seq<char>>, Seq<GateView>), BuildError>(
                (names_of(final(app).names@), gate_views(final(app).gates@)),
            ),
            Err(e) => seal_model(model_of(*old(app), Some(open))) == Err::<(Seq<Seq<char>>, Seq<GateView>), BuildError>(e),
        },
        r is Ok ==> final(app).names@.len() == old(app).names@.len() + 1
            && final(app).names@.last()@ == open.name@
            && final(app).names@.drop_last() == old(app).names@
            && final(app).gates@.drop_last() == old(app).gates@,
        r is Err ==> *final(app) == *old(app),
{
    let name = open.name.clone();
    let ghost o = open;
    proof {
        lemma_labels_bridge(o.labels@, o.targets@);
    }
    match open.seal() {
        Ok(d) => {
            proof {
                lemma_sealed_wf(o, d, app.gates@.len() as int);
            }
            let r = app.register(name, Gate::Defined(d));
            proof {
                assert(r is Ok);
                assert(app.names@.drop_last() =~= old(app).names@);
                assert(app.gates@.drop_last() =~= old(app).gates@);
                assert(names_of(app.names@) =~= names_of(old(app).names@).push(o.name@));
                lemma_sealed_view(o, d);
                assert(gate_views(app.gates@) =~= gate_views(old(app).gates@).push(gate_view(Gate::Defined(d))));
            }
            r
        },
        Err(e) => Err(e),
    }
}

/// A definition that declares its outputs but has a jump whose label no
/// instruction of it carries fails to close with `UnknownLabel`, wherever
/// that jump stands.
pub proof fn lemma_unknown_label(m: BuildModel, k: int)
    requires
        m.open is Some,
        m.open->Some_0.outputs is Some,
        0 <= k < m.open->Some_0.targets.len(),
        m.open->Some_0.targets[k] is Some,
        forall|j: int| 0 <= j < m.open->Some_0.labels.len() ==> m.open->Some_0.labels[j] != m.open->Some_0.targets[k],
    ensures
        seal_model(m) == Err::<(Seq<Seq<char>>, Seq<GateView>), BuildError>(BuildError::UnknownLabel),
{
}

/// Opening a definition under a name that is already registered fails
/// with `DuplicateGateName`.
pub proof fn lemma_duplicate_name(m: BuildModel, name: String, inputs: usize)
    requires
        m.open is None,
        m.names.contains(name@),
    ensures
        step_model(m, LexInstruction::Def { name, inputs }) == Err::<BuildModel, BuildError>(
            BuildError::DuplicateGateName,
        ),
{
}

/// A stream that builds, followed by a definition of a name it already
/// registered and by anything else, fails with `DuplicateGateName`.
pub proof fn lemma_redefinition_fails(
    first: Seq<LexInstruction>,
    name: String,
    inputs: usize,
    rest: Seq<LexInstruction>,
)
    requires
        build_result(first) is Ok,
        build_result(first)->Ok_0.0.contains(name@),
    ensures
        build_result(first + seq![LexInstruction::Def { name, inputs }] + rest) == Err::<
            (Seq<Seq<char>>, Seq<GateView>),
            BuildError,
        >(BuildError::DuplicateGateName),
{
    let d = LexInstruction::Def { name, inputs };
    let s = first + seq![d] + rest;
    let k: int = first.len() as int + 1;
    assert(s.take(k).drop_last() =~= first);
    assert(s.take(k).last() == d);
    assert(run_model(s.take(k)) == Err::<BuildModel, BuildError>(BuildError::DuplicateGateName));
    lemma_run_err_extends(s, k, BuildError::DuplicateGateName);
}

/// A definition that has declared its outputs but holds a jump, at any
/// position `k`, whose label none of its instructions carries, fails the
/// build with `UnknownLabel` when it closes: at the end of the stream or
/// at the next definition, whatever follows.
pub proof fn lemma_unknown_label_stream(
    lex: Seq<LexInstruction>,
    k: int,
    name: String,
    inputs: usize,
    rest: Seq<LexInstruction>,
)
    requires
        run_model(lex) is Ok,
        run_model(lex)->Ok_0.open is Some,
        run_model(lex)->Ok_0.open->Some_0.outputs is Some,
        0 <= k < run_model(lex)->Ok_0.open->Some_0.targets.len(),
        run_model(lex)->Ok_0.open->Some_0.targets[k] is Some,
        forall|j: int|
            0 <= j < run_model(lex)->Ok_0.open->Some_0.labels.len() ==> run_model(lex)->Ok_0.open->Some_0.labels[j]
                != run_model(lex)->Ok_0.open->Some_0.targets[k],
    ensures
        build_result(lex) == Err::<(Seq<Seq<char>>, Seq<GateView>), BuildError>(BuildError::UnknownLabel),
        build_result(lex + seq![LexInstruction::Def { name, inputs }] + rest) == Err::<
            (Seq<Seq<char>>, Seq<GateView>),
            BuildError,
        >(BuildError::UnknownLabel),
{
    let m = run_model(lex)->Ok_0;
    lemma_unknown_label(m, k);
    let d = LexInstruction::Def { name, inputs };
    let s = lex + seq![d] + rest;
    let n: int = lex.len() as int + 1;
    assert(s.take(n).drop_last() =~= lex);
    assert(s.take(n).last() == d);
    assert(run_model(s.take(n)) == Err::<BuildModel, BuildError>(BuildError::UnknownLabel));
    lemma_run_err_extends(s, n, BuildError::UnknownLabel);
}

impl App {
    /// Builds the registry of the builtins and of the definitions of `lex`,
    /// read in order; each definition may invoke only gates before it.
    /// Where a definition declares its outputs more than once, the last
    /// declaration holds.
    pub fn from_with_defaults(lex: Vec<LexInstruction>) -> (r: Result<App, BuildError>)
        ensures
            match r {
                Ok(a) => build_result(lex@) == Ok::<(Seq<Seq<char>>, Seq<GateView>), BuildError>((names_of(a.names@), gate_views(a.gates@))),
                Err(e) => build_result(lex@) == Err::<(Seq<Seq<char>>, Seq<GateView>), BuildError>(e),
            },
            r matches Ok(a) ==> {
                &&& a.wf()
                &&& a.names@.len() >= 2
                &&& a.names@[0]@ == "AND"@
                &&& a.names@[1]@ == "NOT"@
                &&& a.gates@[0] == Gate::Builtin(BuiltinGate { op: BuiltinOp::And })
                &&& a.gates@[1] == Gate::Builtin(BuiltinGate { op: BuiltinOp::Not })
                &&& names_of(a.names@) == seq!["AND"@, "NOT"@] + def_names(lex@)
            },
            forall|i: int, j: int|
                0 <= i < j < def_names(lex@).len() && def_names(lex@)[i] == def_names(lex@)[j] ==> r is Err,
            lex@.len() > 0 && def_name(lex@[0]) is None ==> r == Err::<App, BuildError>(
                BuildError::InstructionOutsideDefinition,
            ),
    {
        let mut app = App::with_defaults();
        let mut open: Option<OpenDef> = None;
        let mut i: usize = 0;
        proof {
            assert(lex@.take(0) =~= Seq::<LexInstruction>::empty());
            assert(names_of(app.names@) =~= seq!["AND"@, "NOT"@]);
            assert(gate_views(app.gates@) =~= seq![GateView::Builtin(BuiltinOp::And), GateView::Builtin(BuiltinOp::Not)]);
        }
        while i < lex.len()
            invariant
                app.wf(),
                app.names@.len() >= 2,
                app.names@[0]@ == "AND"@,
                app.names@[1]@ == "NOT"@,
                app.gates@[0] == Gate::Builtin(BuiltinGate { op: BuiltinOp::And }),
                app.gates@[1] == Gate::Builtin(BuiltinGate { op: BuiltinOp::Not }),
                i <= lex@.len(),
                i == 0 ==> open is None,
                i > 0 ==> def_name(lex@[0]) is Some,
                open is None ==> names_of(app.names@) == seq!["AND"@, "NOT"@] + def_names(lex@.take(i as int)),
                open matches Some(d) ==> names_of(app.names@).push(d.name@) == seq!["AND"@, "NOT"@] + def_names(lex@.take(i as int)),
                open matches Some(d) ==> d.wf(app.gates@.len() as int) && !app.has_name(d.name@),
                run_model(lex@.take(i as int)) == Ok::<BuildModel, BuildError>(model_of(app, open)),
            decreases lex@.len() - i,
        {
            let ghost names_before = names_of(app.names@);
            let ghost m0 = model_of(app, open);
            proof {
                assert(lex@.take(i + 1).drop_last() =~= lex@.take(i as int));
                assert(lex@.take(i + 1).last() == lex@[i as int]);
            }
            match &lex[i] {
                LexInstruction::Def { name, inputs } => {
                    match open {
                        Some(d) => {
                            match close(&mut app, d) {
                                Ok(_) => {
                                    assert(names_of(app.names@) =~= names_before.push(d.name@));
                                    assert(app.names@[0] == app.names@.drop_last()[0]);
                                    assert(app.names@[1] == app.names@.drop_last()[1]);
                                    assert(app.gates@[0] == app.gates@.drop_last()[0]);
                                    assert(app.gates@[1] == app.gates@.drop_last()[1]);
                                },
                                Err(e) => {
                                    proof {
                                        lemma_run_err_extends(lex@, i + 1, e);
                                    }
                                    return Err(e);
                                },
                            }
                        },
                        None => {},
                    }
                    assert(seal_model(m0) == Ok::<(Seq<Seq<char>>, Seq<GateView>), BuildError>((names_of(app.names@), gate_views(app.gates@))));
                    proof {
                        lemma_has_name(app, name@);
                    }
                    if app.find(name).is_some() {
                        proof {
                            lemma_run_err_extends(lex@, i + 1, BuildError::DuplicateGateName);
                        }
                        return Err(BuildError::DuplicateGateName);
                    }
                    if *inputs == 0 {
                        proof {
                            lemma_run_err_extends(lex@, i + 1, BuildError::ZeroArity);
                        }
                        return Err(BuildError::ZeroArity);
                    }
                    let nm = name.clone();
                    proof {
                        assert(names_of(app.names@).push(nm@) =~= seq!["AND"@, "NOT"@] + def_names(lex@.take(i + 1)));
                    }
                    open = Some(
                        OpenDef {
                            name: nm,
                            inputs: *inputs,
                            process: Vec::new(),
                            labels: Vec::new(),
                            targets: Vec::new(),
                            outputs: None,
                        },
                    );
                    proof {
                        let d = open->Some_0;
                        assert(label_views(d.labels@) =~= Seq::<Option<Seq<char>>>::empty());
                        assert(label_views(d.targets@) =~= Seq::<Option<Seq<char>>>::empty());
                        assert(step_views(d.process@) =~= Seq::<StepView>::empty());
                    }
                },
                LexInstruction::Gate { inputs, gate, outputs, label } => {
                    let mut d = match open {
                        Some(d) => d,
                        None => {
                            proof {
                                lemma_run_err_extends(lex@, i + 1, BuildError::InstructionOutsideDefinition);
                            }
                            return Err(BuildError::InstructionOutsideDefinition);
                        },
                    };
                    proof {
                        lemma_has_name(app, gate@);
                    }
                    let g = match app.find(gate) {
                        Some(g) => g,
                        None => {
                            proof {
                                lemma_run_err_extends(lex@, i + 1, BuildError::UnknownGate);
                            }
                            return Err(BuildError::UnknownGate);
                        },
                    };
                    let ghost d0 = d;
                    proof {
                        lemma_name_index(app, g as int);
                    }
                    d.process.push(Step::Invoke(Instruction::new(copy_nets(inputs), g, copy_nets(outputs))));
                    d.labels.push(copy_label(label));
                    d.targets.push(None);
                    proof {
                        assert(label_views(d.labels@) =~= label_views(d0.labels@).push(label_view(*label)));
                        assert(label_views(d.targets@) =~= label_views(d0.targets@).push(None));
                        assert(step_views(d.process@) =~= step_views(d0.process@).push(step_view(d.process@.last())));
                    }
                    open = Some(d);
                },
                LexInstruction::Goto { goto, label } => {
                    let mut d = match open {
                        Some(d) => d,
                        None => {
                            proof {
                                lemma_run_err_extends(lex@, i + 1, BuildError::InstructionOutsideDefinition);
                            }
                            return Err(BuildError::InstructionOutsideDefinition);
                        },
                    };
                    let ghost d0 = d;
                    d.process.push(Step::Jump(0));
                    d.labels.push(copy_label(label));
                    d.targets.push(Some(goto.clone()));
                    proof {
                        assert(label_views(d.labels@) =~= label_views(d0.labels@).push(label_view(*label)));
                        assert(label_views(d.targets@) =~= label_views(d0.targets@).push(Some(goto@)));
                        assert(step_views(d.process@) =~= step_views(d0.process@).push(StepView::Jump(0)));
                    }
                    open = Some(d);
                },
                LexInstruction::Out { outputs } => {
                    let mut d = match open {
                        Some(d) => d,
                        None => {
                            proof {
                                lemma_run_err_extends(lex@, i + 1, BuildError::InstructionOutsideDefinition);
                            }
                            return Err(BuildError::InstructionOutsideDefinition);
                        },
                    };
                    d.outputs = Some(copy_nets(outputs));
                    open = Some(d);
                },
            }
            i += 1;
        }
        proof {
            assert(lex@.take(i as int) =~= lex@);
        }
        let ghost names_before = names_of(app.names@);
        match open {
            Some(d) => {
                match close(&mut app, d) {
                    Ok(_) => {
                        assert(names_of(app.names@) =~= names_before.push(d.name@));
                        assert(app.names@[0] == app.names@.drop_last()[0]);
                        assert(app.names@[1] == app.names@.drop_last()[1]);
                        assert(app.gates@[0] == app.gates@.drop_last()[0]);
                        assert(app.gates@[1] == app.gates@.drop_last()[1]);
                    },
                    Err(e) => {
                        return Err(e);
                    },
                }
            },
            None => {},
        }
        proof {
            assert forall|i: int, j: int|
                0 <= i < j < def_names(lex@).len() implies def_names(lex@)[i] != def_names(lex@)[j] by {
                let ns = names_of(app.names@);
                assert(ns[i + 2] == def_names(lex@)[i]);
                assert(ns[j + 2] == def_names(lex@)[j]);
                assert(app.names@[i + 2]@ != app.names@[j + 2]@);
            }
        }
        Ok(app)
    }
}

} // verus!
