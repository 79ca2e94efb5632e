//! The graph's construction and identity model, and the validating dump.
//!
//! Values and expression nodes are entities: two of them are the same exactly
//! when they were made by the same constructor call, never because they carry
//! equal names or equal structure. Values carry a `(scope, serial)` identity
//! pair handed out by the minting factories; expression nodes live in an arena
//! owned by their namespace, and a node's identity is its arena slot.

use vstd::prelude::*;

verus! {

/// Whether a value is a function-external parameter or a function-local input.
#[derive(Clone, Copy, Debug, PartialEq, Eq, Structural)]
pub enum VType {
    Param,
    Input,
}

/// A named leaf entity, tagged as parameter or input.
///
/// Two values are the same entity exactly when their `scope` and `serial`
/// agree; the name is display text and never identifies a value. A namespace
/// gives each minted value and each minted function a scope of its own, so
/// everything minted through one namespace is pairwise distinct.
#[derive(Debug)]
pub struct Value {
    pub name: String,
    pub vtype: VType,
    pub scope: u64,
    pub serial: u64,
}

/// The one equality on values: identity, not looks.
pub open spec fn same_value(a: Value, b: Value) -> bool {
    a.scope == b.scope && a.serial == b.serial
}

impl PartialEq for Value {
    fn eq(&self, other: &Self) -> bool {
        self.scope == other.scope && self.serial == other.serial
    }
}

impl Eq for Value {}

impl vstd::std_specs::cmp::PartialEqSpecImpl for Value {
    open spec fn obeys_eq_spec() -> bool {
        true
    }

    open spec fn eq_spec(&self, other: &Self) -> bool {
        same_value(*self, *other)
    }
}

impl Clone for Value {
    fn clone(&self) -> (r: Self)
        ensures
            r.name@ == self.name@,
            r.vtype == self.vtype,
            r.scope == self.scope,
            r.serial == self.serial,
    {
        Value {
            name: self.name.clone(),
            vtype: self.vtype,
            scope: self.scope,
            serial: self.serial,
        }
    }
}

/// Identity is the only equality on values: a value equals itself, and values
/// with different identity pairs compare unequal no matter their names.
pub proof fn lemma_value_identity(a: Value, b: Value)
    ensures
        same_value(a, a),
        same_value(a, b) <==> (a.scope == b.scope && a.serial == b.serial),
{
}

/// The binary operator kinds.
#[derive(Clone, Copy, Debug, PartialEq, Eq, Structural)]
pub enum BinOpType {
    Add,
    Minus,
}

/// A handle to one node of a namespace's expression arena.
///
/// Handles are the unit of sharing and identity: two constructor calls return
/// two different handles even when the nodes they made look alike, and a
/// subexpression is shared only by reusing a handle.
#[derive(Clone, Copy, Debug, PartialEq, Eq, Structural)]
pub struct OpRef {
    pub idx: usize,
}

/// One node of the expression DAG: a reference to an input value, a read of a
/// parameter value, or a binary operation over two earlier nodes.
#[derive(Debug)]
pub enum Op {
    Inp(Value),
    Read(Value),
    Binary(BinOpType, OpRef, OpRef),
}

/// A namespace: the factory for values, functions and expression nodes, and
/// the owner of the expression arena.
pub struct Ns {
    pub next_scope: u64,
    pub nodes: Vec<Op>,
}

/// The node sitting at slot `i` is internally consistent: leaves hold a value
/// of the matching kind, and a binary node only points at earlier slots, which
/// makes every graph acyclic by construction.
pub open spec fn node_ok(node: Op, i: int) -> bool {
    match node {
        Op::Inp(v) => v.vtype == VType::Input,
        Op::Read(v) => v.vtype == VType::Param,
        Op::Binary(_, l, r) => l.idx < i && r.idx < i,
    }
}

impl Default for Ns {
    fn default() -> (ns: Ns)
        ensures
            ns.wf(),
            ns.nodes@.len() == 0,
            ns.next_scope == 0,
    {
        Ns::new()
    }
}

impl Ns {
    pub open spec fn wf(self) -> bool {
        forall|i: int| 0 <= i < self.nodes@.len() ==> node_ok(#[trigger] self.nodes@[i], i)
    }

    /// The handle points into this namespace's arena.
    pub open spec fn valid(self, o: OpRef) -> bool {
        o.idx < self.nodes@.len()
    }

    pub fn new() -> (ns: Ns)
        ensures
            ns.wf(),
            ns.nodes@.len() == 0,
            ns.next_scope == 0,
    {
        Ns { next_scope: 0, nodes: Vec::new() }
    }

    /// Mints a fresh parameter value. The name is never checked for
    /// uniqueness: two parameters may share a display name while being
    /// distinct entities, because each mint takes a scope of its own.
    pub fn new_raw_param(&mut self, name: &str) -> (v: Value)
        requires
            old(self).next_scope < u64::MAX,
        ensures
            v.vtype == VType::Param,
            v.name@ == name@,
            v.scope == old(self).next_scope,
            v.serial == 0,
            final(self).next_scope == old(self).next_scope + 1,
            final(self).nodes@ == old(self).nodes@,
            old(self).wf() ==> final(self).wf(),
    {
        let scope = self.next_scope;
        self.next_scope = self.next_scope + 1;
        proof {
            if old(self).wf() {
                assert forall|i: int|
                    0 <= i < self.nodes@.len() implies node_ok(#[trigger] self.nodes@[i], i) by {
                    assert(self.nodes@[i] == old(self).nodes@[i]);
                }
            }
        }
        Value { name: name.to_owned(), vtype: VType::Param, scope, serial: 0 }
    }

    /// Mints an empty function with a scope of its own; its declared inputs
    /// will carry that scope.
    pub fn new_fn(&mut self, name: &str) -> (f: Fn)
        requires
            old(self).next_scope < u64::MAX,
        ensures
            f.wf(),
            f.name@ == name@,
            f.scope == old(self).next_scope,
            f.inps@.len() == 0,
            f.outs@.len() == 0,
            final(self).next_scope == old(self).next_scope + 1,
            final(self).nodes@ == old(self).nodes@,
            old(self).wf() ==> final(self).wf(),
    {
        let scope = self.next_scope;
        self.next_scope = self.next_scope + 1;
        proof {
            if old(self).wf() {
                assert forall|i: int|
                    0 <= i < self.nodes@.len() implies node_ok(#[trigger] self.nodes@[i], i) by {
                    assert(self.nodes@[i] == old(self).nodes@[i]);
                }
            }
        }
        Fn { name: name.to_owned(), scope, inps: Vec::new(), outs: Vec::new() }
    }
}

/// A named scope owning a declared list of input values and a list of output
/// expressions built from those inputs and any parameters.
pub struct Fn {
    pub name: String,
    pub scope: u64,
    pub inps: Vec<Value>,
    pub outs: Vec<OpRef>,
}

/// The value resolves, by identity, to one of the declared inputs.
pub open spec fn declared(inps: Seq<Value>, v: Value) -> bool {
    exists|i: int| 0 <= i < inps.len() && same_value(#[trigger] inps[i], v)
}

impl Fn {
    /// Declared inputs all carry this function's scope, are input-kind, and
    /// their serial is their declaration position, which makes them pairwise
    /// distinct entities.
    pub open spec fn wf(self) -> bool {
        forall|i: int|
            0 <= i < self.inps@.len() ==> {
                &&& (#[trigger] self.inps@[i]).vtype == VType::Input
                &&& self.inps@[i].scope == self.scope
                &&& self.inps@[i].serial as int == i
            }
    }

    /// Every registered output points into the arena of `ns`.
    pub open spec fn outs_valid(self, ns: Ns) -> bool {
        forall|k: int| 0 <= k < self.outs@.len() ==> (#[trigger] self.outs@[k]).idx < ns.nodes@.len()
    }

    pub open spec fn declares(self, v: Value) -> bool {
        declared(self.inps@, v)
    }

    pub fn inps(&self) -> (r: &Vec<Value>)
        ensures
            r@ == self.inps@,
    {
        &self.inps
    }

    pub fn outs(&self) -> (r: &Vec<OpRef>)
        ensures
            r@ == self.outs@,
    {
        &self.outs
    }

    /// Declares a fresh input value. Its stored name is the given name
    /// qualified with this function's name, its serial is its declaration
    /// position, and the returned handle must be reused for every reference
    /// to this input.
    pub fn new_inp(&mut self, name: &str) -> (v: Value)
        ensures
            v.vtype == VType::Input,
            v.scope == old(self).scope,
            v.serial == old(self).inps@.len() as u64,
            v.name@ == old(self).name@ + "/"@ + name@,
            final(self).inps@.len() == old(self).inps@.len() + 1,
            forall|i: int|
                0 <= i < old(self).inps@.len() ==> final(self).inps@[i] == old(self).inps@[i],
            same_value(final(self).inps@[old(self).inps@.len() as int], v),
            final(self).inps@[old(self).inps@.len() as int].vtype == v.vtype,
            final(self).inps@[old(self).inps@.len() as int].name@ == v.name@,
            final(self).name@ == old(self).name@,
            final(self).scope == old(self).scope,
            final(self).outs@ == old(self).outs@,
            old(self).wf() ==> final(self).wf(),
    {
        let serial = self.inps.len() as u64;
        let mut qualified = self.name.clone();
        qualified.append("/");
        qualified.append(name);
        let v = Value { name: qualified, vtype: VType::Input, scope: self.scope, serial };
        self.inps.push(v.clone());
        v
    }

    /// Registers one more output expression.
    pub fn add_out(&mut self, v: OpRef)
        ensures
            final(self).outs@ == old(self).outs@.push(v),
            final(self).inps@ == old(self).inps@,
            final(self).name@ == old(self).name@,
            final(self).scope == old(self).scope,
            old(self).wf() ==> final(self).wf(),
    {
        self.outs.push(v);
        proof {
            if old(self).wf() {
                assert forall|i: int|
                    0 <= i < self.inps@.len() implies {
                    &&& (#[trigger] self.inps@[i]).vtype == VType::Input
                    &&& self.inps@[i].scope == self.scope
                    &&& self.inps@[i].serial as int == i
                } by {
                    assert(old(self).inps@[i] == self.inps@[i]);
                }
            }
        }
    }
}

/// Distinct declared inputs of a well-formed function are distinct entities,
/// even when they were declared under equal display names.
pub proof fn lemma_inputs_distinct(f: Fn, i: int, j: int)
    requires
        f.wf(),
        0 <= i < f.inps@.len(),
        0 <= j < f.inps@.len(),
        i != j,
    ensures
        !same_value(f.inps@[i], f.inps@[j]),
{
    assert(f.inps@[i].serial as int == i);
    assert(f.inps@[j].serial as int == j);
}

/// Extending a well-formed arena with one node that is itself consistent at
/// the new slot keeps the arena well-formed.
proof fn lemma_push_node_wf(pre: Ns, post: Ns, node: Op)
    requires
        pre.wf(),
        post.nodes@ == pre.nodes@.push(node),
        node_ok(node, pre.nodes@.len() as int),
    ensures
        post.wf(),
{
    assert forall|i: int|
        0 <= i < post.nodes@.len() implies node_ok(#[trigger] post.nodes@[i], i) by {
        if i < pre.nodes@.len() {
            assert(post.nodes@[i] == pre.nodes@[i]);
        } else {
            assert(post.nodes@[i] == node);
        }
    }
}

impl Op {
    /// Wraps an input-kind value in a fresh arena node. Building an input
    /// reference from a parameter is a caller bug, ruled out by precondition.
    pub fn inp(ns: &mut Ns, v: Value) -> (r: OpRef)
        requires
            v.vtype == VType::Input,
            old(ns).wf(),
        ensures
            final(ns).wf(),
            r.idx == old(ns).nodes@.len(),
            final(ns).nodes@ == old(ns).nodes@.push(Op::Inp(v)),
            final(ns).next_scope == old(ns).next_scope,
    {
        let idx = ns.nodes.len();
        ns.nodes.push(Op::Inp(v));
        proof {
            lemma_push_node_wf(*old(ns), *ns, Op::Inp(v));
        }
        OpRef { idx }
    }

    /// Wraps a parameter-kind value in a fresh arena node. Building a
    /// parameter read from an input is a caller bug, ruled out by
    /// precondition.
    pub fn read(ns: &mut Ns, v: Value) -> (r: OpRef)
        requires
            v.vtype == VType::Param,
            old(ns).wf(),
        ensures
            final(ns).wf(),
            r.idx == old(ns).nodes@.len(),
            final(ns).nodes@ == old(ns).nodes@.push(Op::Read(v)),
            final(ns).next_scope == old(ns).next_scope,
    {
        let idx = ns.nodes.len();
        ns.nodes.push(Op::Read(v));
        proof {
            lemma_push_node_wf(*old(ns), *ns, Op::Read(v));
        }
        OpRef { idx }
    }

    /// A fresh addition node over two existing nodes; the child handles may
    /// already be shared elsewhere.
    pub fn add(ns: &mut Ns, arg1: OpRef, arg2: OpRef) -> (r: OpRef)
        requires
            old(ns).wf(),
            old(ns).valid(arg1),
            old(ns).valid(arg2),
        ensures
            final(ns).wf(),
            r.idx == old(ns).nodes@.len(),
            final(ns).nodes@ == old(ns).nodes@.push(Op::Binary(BinOpType::Add, arg1, arg2)),
            final(ns).next_scope == old(ns).next_scope,
    {
        let idx = ns.nodes.len();
        ns.nodes.push(Op::Binary(BinOpType::Add, arg1, arg2));
        proof {
            lemma_push_node_wf(*old(ns), *ns, Op::Binary(BinOpType::Add, arg1, arg2));
        }
        OpRef { idx }
    }

    /// A fresh subtraction node over two existing nodes.
    pub fn minus(ns: &mut Ns, arg1: OpRef, arg2: OpRef) -> (r: OpRef)
        requires
            old(ns).wf(),
            old(ns).valid(arg1),
            old(ns).valid(arg2),
        ensures
            final(ns).wf(),
            r.idx == old(ns).nodes@.len(),
            final(ns).nodes@ == old(ns).nodes@.push(Op::Binary(BinOpType::Minus, arg1, arg2)),
            final(ns).next_scope == old(ns).next_scope,
    {
        let idx = ns.nodes.len();
        ns.nodes.push(Op::Binary(BinOpType::Minus, arg1, arg2));
        proof {
            lemma_push_node_wf(*old(ns), *ns, Op::Binary(BinOpType::Minus, arg1, arg2));
        }
        OpRef { idx }
    }
}

/// `b` is reachable from `a`: equal to it, or reachable from a child of `a`.
/// Well-formed arenas only point backwards, so the walk terminates.
pub open spec fn reaches(ns: Ns, a: OpRef, b: OpRef) -> bool
    decreases a.idx,
        when ns.wf() && a.idx < ns.nodes@.len()
{
    a == b || match ns.nodes@[a.idx as int] {
        Op::Binary(_, l, r) => reaches(ns, l, b) || reaches(ns, r, b),
        _ => false,
    }
}

/// Every input reference reachable from `o` resolves, by identity, to one of
/// the declared inputs.
pub open spec fn inputs_declared_from(ns: Ns, inps: Seq<Value>, o: OpRef) -> bool {
    forall|b: OpRef|
        b.idx < ns.nodes@.len() && #[trigger] reaches(ns, o, b) ==> match ns.nodes@[b.idx as int] {
            Op::Inp(v) => declared(inps, v),
            _ => true,
        }
}

/// One diagnostic line of the validating dump: which kind of leaf was found,
/// and the name stored in it.
#[derive(Debug)]
pub struct DumpLine {
    pub vtype: VType,
    pub name: String,
}

/// The mathematical content of a dump line: the leaf kind and the name.
pub open spec fn line_view(l: DumpLine) -> (VType, Seq<char>) {
    (l.vtype, l.name@)
}

pub open spec fn lines_view(s: Seq<DumpLine>) -> Seq<(VType, Seq<char>)> {
    s.map_values(|l: DumpLine| line_view(l))
}

/// The validating dump of the subgraph under `o`, visited depth-first with
/// the left child before the right: one line per leaf occurrence (a shared
/// leaf is reported once per occurrence), or the name of the first input
/// reference that does not resolve to a declared input.
pub open spec fn dump_node_spec(ns: Ns, inps: Seq<Value>, o: OpRef) -> Result<
    Seq<(VType, Seq<char>)>,
    Seq<char>,
>
    decreases o.idx,
        when ns.wf() && o.idx < ns.nodes@.len()
{
    match ns.nodes@[o.idx as int] {
        Op::Inp(v) => if declared(inps, v) {
            Ok(seq![(VType::Input, v.name@)])
        } else {
            Err(v.name@)
        },
        Op::Read(v) => Ok(seq![(VType::Param, v.name@)]),
        Op::Binary(_, l, r) => match dump_node_spec(ns, inps, l) {
            Err(e) => Err(e),
            Ok(s1) => match dump_node_spec(ns, inps, r) {
                Err(e) => Err(e),
                Ok(s2) => Ok(s1 + s2),
            },
        },
    }
}

/// The dump of a list of outputs, first to last, stopping at the first error.
pub open spec fn dump_outs_spec(ns: Ns, inps: Seq<Value>, outs: Seq<OpRef>) -> Result<
    Seq<(VType, Seq<char>)>,
    Seq<char>,
>
    decreases outs.len(),
{
    if outs.len() == 0 {
        Ok(Seq::empty())
    } else {
        match dump_node_spec(ns, inps, outs[0]) {
            Err(e) => Err(e),
            Ok(s1) => match dump_outs_spec(ns, inps, outs.drop_first()) {
                Err(e) => Err(e),
                Ok(s2) => Ok(s1 + s2),
            },
        }
    }
}

/// `n` spaces.
pub open spec fn spaces(n: nat) -> Seq<char> {
    Seq::new(n, |i: int| ' ')
}

/// The operator kind's display name.
pub open spec fn bin_name(b: BinOpType) -> Seq<char> {
    match b {
        BinOpType::Add => "Add"@,
        BinOpType::Minus => "Minus"@,
    }
}

/// The indented rendering of the tree rooted at `o`: leaves show their
/// variant and value name, a binary node shows its operator and its two
/// children one indent level deeper.
pub open spec fn render_spec(ns: Ns, o: OpRef, indent: nat) -> Seq<char>
    decreases o.idx,
        when ns.wf() && o.idx < ns.nodes@.len()
{
    match ns.nodes@[o.idx as int] {
        Op::Inp(v) => "Inp("@ + v.name@ + ")"@,
        Op::Read(v) => "Read("@ + v.name@ + ")"@,
        Op::Binary(b, l, r) => "Binary(\n"@ + spaces(indent) + "  +- "@ + bin_name(b) + ",\n"@
            + spaces(indent) + "  +- "@ + render_spec(ns, l, indent + 4) + "\n"@ + spaces(indent)
            + "  +- "@ + render_spec(ns, r, indent + 4) + "\n"@ + spaces(indent) + ")"@,
    }
}

/// A run of `n` spaces, for the indented rendering.
fn make_spaces(n: usize) -> (r: String)
    ensures
        r@ == spaces(n as nat),
{
    let mut s = String::new();
    let mut i: usize = 0;
    proof {
        assert(s@ =~= spaces(0));
    }
    while i < n
        invariant
            0 <= i <= n,
            s@ == spaces(i as nat),
        decreases n - i,
    {
        s.append(" ");
        proof {
            reveal_strlit(" ");
            assert(s@ =~= spaces((i + 1) as nat));
        }
        i = i + 1;
    }
    s
}

impl Op {
    /// The diagnostic, indentation-structured rendering of the tree rooted at
    /// `o`. A shared node is rendered once per occurrence; the graph is
    /// acyclic by construction, so the walk ends.
    pub fn fmt_with_indent(ns: &Ns, o: OpRef, indent: usize) -> (r: String)
        requires
            ns.wf(),
            o.idx < ns.nodes@.len(),
            indent + 4 * o.idx <= usize::MAX,
        ensures
            r@ == render_spec(*ns, o, indent as nat),
        decreases o.idx,
    {
        match &ns.nodes[o.idx] {
            Op::Inp(v) => {
                let mut s = String::from_str("Inp(");
                s.append(v.name.as_str());
                s.append(")");
                s
            },
            Op::Read(v) => {
                let mut s = String::from_str("Read(");
                s.append(v.name.as_str());
                s.append(")");
                s
            },
            Op::Binary(b, l, r) => {
                let left = *l;
                let right = *r;
                let space = make_spaces(indent);
                let mut s = String::from_str("Binary(\n");
                s.append(space.as_str());
                s.append("  +- ");
                match b {
                    BinOpType::Add => s.append("Add"),
                    BinOpType::Minus => s.append("Minus"),
                }
                s.append(",\n");
                s.append(space.as_str());
                s.append("  +- ");
                let c1 = Op::fmt_with_indent(ns, left, indent + 4);
                s.append(c1.as_str());
                s.append("\n");
                s.append(space.as_str());
                s.append("  +- ");
                let c2 = Op::fmt_with_indent(ns, right, indent + 4);
                s.append(c2.as_str());
                s.append("\n");
                s.append(space.as_str());
                s.append(")");
                s
            },
        }
    }
}

/// `b` is reachable from one of the handles in `outs`.
pub open spec fn reaches_any(ns: Ns, outs: Seq<OpRef>, b: OpRef) -> bool {
    exists|k: int| 0 <= k < outs.len() && reaches(ns, #[trigger] outs[k], b)
}

/// The dump of one node succeeds exactly when every reachable input
/// reference is declared; when it fails, the reported name is that of a
/// reachable input reference that is not declared.
proof fn lemma_dump_node_ok_iff_declared(ns: Ns, inps: Seq<Value>, o: OpRef)
    requires
        ns.wf(),
        o.idx < ns.nodes@.len(),
    ensures
        dump_node_spec(ns, inps, o) is Ok <==> inputs_declared_from(ns, inps, o),
        dump_node_spec(ns, inps, o) is Err ==> exists|b: OpRef|
            {
                &&& b.idx < ns.nodes@.len()
                &&& #[trigger] reaches(ns, o, b)
                &&& ns.nodes@[b.idx as int] matches Op::Inp(v) && !declared(inps, v)
                    && dump_node_spec(ns, inps, o)->Err_0 == v.name@
            },
    decreases o.idx,
{
    assert(reaches(ns, o, o));
    match ns.nodes@[o.idx as int] {
        Op::Inp(v) => {
            assert forall|b: OpRef| b.idx < ns.nodes@.len() && #[trigger] reaches(ns, o, b) implies b
                == o by {}
            if !declared(inps, v) {
                assert(reaches(ns, o, o) && (ns.nodes@[o.idx as int] matches Op::Inp(w)
                    && !declared(inps, w) && dump_node_spec(ns, inps, o)->Err_0 == w.name@));
            }
        },
        Op::Read(_) => {
            assert forall|b: OpRef| b.idx < ns.nodes@.len() && #[trigger] reaches(ns, o, b) implies b
                == o by {}
        },
        Op::Binary(_, l, r) => {
            lemma_dump_node_ok_iff_declared(ns, inps, l);
            lemma_dump_node_ok_iff_declared(ns, inps, r);
            if inputs_declared_from(ns, inps, o) {
                assert forall|b: OpRef|
                    b.idx < ns.nodes@.len() && #[trigger] reaches(ns, l, b) implies (
                match ns.nodes@[b.idx as int] {
                    Op::Inp(v) => declared(inps, v),
                    _ => true,
                }) by {
                    assert(reaches(ns, o, b));
                }
                assert forall|b: OpRef|
                    b.idx < ns.nodes@.len() && #[trigger] reaches(ns, r, b) implies (
                match ns.nodes@[b.idx as int] {
                    Op::Inp(v) => declared(inps, v),
                    _ => true,
                }) by {
                    assert(reaches(ns, o, b));
                }
                assert(inputs_declared_from(ns, inps, l));
                assert(inputs_declared_from(ns, inps, r));
            } else {
                let bad = choose|b: OpRef|
                    b.idx < ns.nodes@.len() && #[trigger] reaches(ns, o, b) && !(match ns.nodes@[b.idx as int] {
                        Op::Inp(v) => declared(inps, v),
                        _ => true,
                    });
                assert(bad == o || reaches(ns, l, bad) || reaches(ns, r, bad));
                assert(!(inputs_declared_from(ns, inps, l) && inputs_declared_from(ns, inps, r)));
            }
            if dump_node_spec(ns, inps, l) is Err {
                let b = choose|b: OpRef|
                    {
                        &&& b.idx < ns.nodes@.len()
                        &&& #[trigger] reaches(ns, l, b)
                        &&& ns.nodes@[b.idx as int] matches Op::Inp(v) && !declared(inps, v)
                            && dump_node_spec(ns, inps, l)->Err_0 == v.name@
                    };
                assert(reaches(ns, o, b));
            } else if dump_node_spec(ns, inps, r) is Err {
                let b = choose|b: OpRef|
                    {
                        &&& b.idx < ns.nodes@.len()
                        &&& #[trigger] reaches(ns, r, b)
                        &&& ns.nodes@[b.idx as int] matches Op::Inp(v) && !declared(inps, v)
                            && dump_node_spec(ns, inps, r)->Err_0 == v.name@
                    };
                assert(reaches(ns, o, b));
            }
        },
    }
}

/// The dump of a list of outputs succeeds exactly when every output's
/// reachable input references are all declared; a failure names a foreign
/// input reachable from one of the outputs.
proof fn lemma_dump_outs_ok_iff_declared(ns: Ns, inps: Seq<Value>, outs: Seq<OpRef>)
    requires
        ns.wf(),
        forall|k: int| 0 <= k < outs.len() ==> (#[trigger] outs[k]).idx < ns.nodes@.len(),
    ensures
        dump_outs_spec(ns, inps, outs) is Ok <==> (forall|k: int|
            0 <= k < outs.len() ==> inputs_declared_from(ns, inps, #[trigger] outs[k])),
        dump_outs_spec(ns, inps, outs) is Err ==> exists|b: OpRef|
            {
                &&& b.idx < ns.nodes@.len()
                &&& #[trigger] reaches_any(ns, outs, b)
                &&& ns.nodes@[b.idx as int] matches Op::Inp(v) && !declared(inps, v)
                    && dump_outs_spec(ns, inps, outs)->Err_0 == v.name@
            },
    decreases outs.len(),
{
    if outs.len() == 0 {
    } else {
        lemma_dump_node_ok_iff_declared(ns, inps, outs[0]);
        lemma_dump_outs_ok_iff_declared(ns, inps, outs.drop_first());
        let rest = outs.drop_first();
        assert(forall|k: int| 0 <= k < rest.len() ==> rest[k] == outs[k + 1]);
        if dump_outs_spec(ns, inps, outs) is Ok {
            assert forall|k: int|
                0 <= k < outs.len() implies inputs_declared_from(ns, inps, #[trigger] outs[k]) by {
                if k > 0 {
                    assert(inputs_declared_from(ns, inps, rest[k - 1]));
                }
            }
        } else {
            if dump_node_spec(ns, inps, outs[0]) is Err {
                let b = choose|b: OpRef|
                    {
                        &&& b.idx < ns.nodes@.len()
                        &&& #[trigger] reaches(ns, outs[0], b)
                        &&& ns.nodes@[b.idx as int] matches Op::Inp(v) && !declared(inps, v)
                            && dump_node_spec(ns, inps, outs[0])->Err_0 == v.name@
                    };
                assert(reaches(ns, outs[0], b));
                assert(reaches_any(ns, outs, b));
            } else {
                let b = choose|b: OpRef|
                    {
                        &&& b.idx < ns.nodes@.len()
                        &&& #[trigger] reaches_any(ns, rest, b)
                        &&& ns.nodes@[b.idx as int] matches Op::Inp(v) && !declared(inps, v)
                            && dump_outs_spec(ns, inps, rest)->Err_0 == v.name@
                    };
                let k = choose|k: int| 0 <= k < rest.len() && reaches(ns, #[trigger] rest[k], b);
                assert(outs[k + 1] == rest[k]);
                assert(reaches(ns, outs[k + 1], b));
                assert(reaches_any(ns, outs, b));
            }
            assert(!(forall|k: int|
                0 <= k < outs.len() ==> inputs_declared_from(ns, inps, #[trigger] outs[k])))
                by {
                let bb = choose|b: OpRef|
                    {
                        &&& b.idx < ns.nodes@.len()
                        &&& #[trigger] reaches_any(ns, outs, b)
                        &&& ns.nodes@[b.idx as int] matches Op::Inp(v) && !declared(inps, v)
                            && dump_outs_spec(ns, inps, outs)->Err_0 == v.name@
                    };
                let kk = choose|k: int| 0 <= k < outs.len() && reaches(ns, #[trigger] outs[k], bb);
                assert(!inputs_declared_from(ns, inps, outs[kk]));
            }
        }
    }
}

/// The law of the validator: the dump succeeds exactly when every input
/// reference reachable from the function's outputs resolves, by identity, to
/// one of its declared inputs; and a failure names such a foreign input.
pub proof fn lemma_dump_ok_iff_declared(ns: Ns, f: Fn)
    requires
        ns.wf(),
        f.outs_valid(ns),
    ensures
        dump_outs_spec(ns, f.inps@, f.outs@) is Ok <==> (forall|k: int|
            0 <= k < f.outs@.len() ==> inputs_declared_from(ns, f.inps@, #[trigger] f.outs@[k])),
        dump_outs_spec(ns, f.inps@, f.outs@) is Err ==> exists|b: OpRef|
            {
                &&& b.idx < ns.nodes@.len()
                &&& #[trigger] reaches_any(ns, f.outs@, b)
                &&& ns.nodes@[b.idx as int] matches Op::Inp(v) && !f.declares(v)
                    && dump_outs_spec(ns, f.inps@, f.outs@)->Err_0 == v.name@
            },
{
    lemma_dump_outs_ok_iff_declared(ns, f.inps@, f.outs@);
}

/// Whether a value is, by identity, among the declared inputs.
fn is_declared(inps: &Vec<Value>, v: &Value) -> (r: bool)
    ensures
        r == declared(inps@, *v),
{
    let n = inps.len();
    let mut i: usize = 0;
    while i < n
        invariant
            n == inps@.len(),
            0 <= i <= n,
            forall|j: int| 0 <= j < i ==> !same_value(#[trigger] inps@[j], *v),
        decreases n - i,
    {
        if inps[i].scope == v.scope && inps[i].serial == v.serial {
            return true;
        }
        i = i + 1;
    }
    false
}

/// The recursive walk behind [`Fn::dump`]: appends this subgraph's lines to
/// `acc`, or returns the offending name.
fn dump_walk(ns: &Ns, inps: &Vec<Value>, o: OpRef, acc: &mut Vec<DumpLine>) -> (r: Result<
    (),
    String,
>)
    requires
        ns.wf(),
        o.idx < ns.nodes@.len(),
    ensures
        match r {
            Ok(_) => {
                &&& dump_node_spec(*ns, inps@, o) is Ok
                &&& lines_view(final(acc)@) == lines_view(old(acc)@) + dump_node_spec(
                    *ns,
                    inps@,
                    o,
                )->Ok_0
            },
            Err(name) => {
                &&& dump_node_spec(*ns, inps@, o) is Err
                &&& name@ == dump_node_spec(*ns, inps@, o)->Err_0
            },
        },
    decreases o.idx,
{
    match &ns.nodes[o.idx] {
        Op::Inp(v) => {
            if is_declared(inps, v) {
                acc.push(DumpLine { vtype: VType::Input, name: v.name.clone() });
                proof {
                    assert(lines_view(acc@) =~= lines_view(old(acc)@) + dump_node_spec(
                        *ns,
                        inps@,
                        o,
                    )->Ok_0);
                }
                Ok(())
            } else {
                Err(v.name.clone())
            }
        },
        Op::Read(v) => {
            acc.push(DumpLine { vtype: VType::Param, name: v.name.clone() });
            proof {
                assert(lines_view(acc@) =~= lines_view(old(acc)@) + dump_node_spec(
                    *ns,
                    inps@,
                    o,
                )->Ok_0);
            }
            Ok(())
        },
        Op::Binary(_, l, r) => {
            let left = *l;
            let right = *r;
            match dump_walk(ns, inps, left, acc) {
                Err(e) => Err(e),
                Ok(_) => {
                    let ghost mid = acc@;
                    match dump_walk(ns, inps, right, acc) {
                        Err(e) => Err(e),
                        Ok(_) => {
                            proof {
                                assert(lines_view(acc@) =~= lines_view(old(acc)@)
                                    + dump_node_spec(*ns, inps@, o)->Ok_0);
                            }
                            Ok(())
                        },
                    }
                },
            }
        },
    }
}

impl Fn {
    /// The validating dump: walks every output's DAG, output by output, and
    /// reports one line per leaf occurrence met on the way — `Input` lines
    /// only for references that resolve to this function's declared inputs.
    /// An input reference that does not belong to this function aborts the
    /// pass with the offending value's name.
    pub fn dump(&self, ns: &Ns) -> (r: Result<Vec<DumpLine>, String>)
        requires
            ns.wf(),
            self.outs_valid(*ns),
        ensures
            match r {
                Ok(lines) => {
                    &&& dump_outs_spec(*ns, self.inps@, self.outs@) is Ok
                    &&& lines_view(lines@) == dump_outs_spec(*ns, self.inps@, self.outs@)->Ok_0
                },
                Err(name) => {
                    &&& dump_outs_spec(*ns, self.inps@, self.outs@) is Err
                    &&& name@ == dump_outs_spec(*ns, self.inps@, self.outs@)->Err_0
                },
            },
    {
        let mut acc: Vec<DumpLine> = Vec::new();
        let n = self.outs.len();
        let mut k: usize = 0;
        proof {
            assert(self.outs@.skip(0) =~= self.outs@);
            if let Ok(m) = dump_outs_spec(*ns, self.inps@, self.outs@) {
                assert(lines_view(acc@) + m =~= m);
            }
        }
        while k < n
            invariant
                n == self.outs@.len(),
                0 <= k <= n,
                ns.wf(),
                self.outs_valid(*ns),
                dump_outs_spec(*ns, self.inps@, self.outs@) == (match dump_outs_spec(
                    *ns,
                    self.inps@,
                    self.outs@.skip(k as int),
                ) {
                    Err(e) => Err::<Seq<(VType, Seq<char>)>, Seq<char>>(e),
                    Ok(m) => Ok(lines_view(acc@) + m),
                }),
            decreases n - k,
        {
            let o = self.outs[k];
            let ghost pre = acc@;
            let step = dump_walk(ns, &self.inps, o, &mut acc);
            proof {
                assert(self.outs@.skip(k as int)[0] == self.outs@[k as int]);
                assert(self.outs@.skip(k as int).drop_first() =~= self.outs@.skip(k as int + 1));
            }
            match step {
                Err(e) => {
                    return Err(e);
                },
                Ok(_) => {
                    proof {
                        if let Ok(m) = dump_outs_spec(*ns, self.inps@, self.outs@.skip(k as int + 1)) {
                            assert(lines_view(pre) + (dump_node_spec(*ns, self.inps@, self.outs@[k as int])->Ok_0 + m)
                                =~= lines_view(acc@) + m);
                        }
                    }
                },
            }
            k = k + 1;
        }
        proof {
            assert(self.outs@.skip(n as int) =~= Seq::<OpRef>::empty());
            if let Ok(m) = dump_outs_spec(*ns, self.inps@, self.outs@.skip(n as int)) {
                assert(lines_view(acc@) + m =~= lines_view(acc@));
            }
        }
        Ok(acc)
    }
}

} // verus!
