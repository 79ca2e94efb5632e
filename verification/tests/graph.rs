use opgraph::alg::{BinOpType, Ns, Op, OpRef, VType};
use opgraph::cc::compile;
use opgraph::cc::top_sort;

/// Position of a handle in a schedule, if any.
fn position(order: &[OpRef], o: OpRef) -> Option<usize> {
    order.iter().position(|p| *p == o)
}

#[test]
fn value_identity_not_name() {
    let mut ns = Ns::new();
    let a = ns.new_raw_param("w");
    let b = ns.new_raw_param("w");
    assert_eq!(a, a);
    assert_ne!(a, b);
    assert_eq!(a.name, "w");
    assert_eq!(b.name, "w");
    assert_eq!(a.vtype, VType::Param);
}

#[test]
fn input_identity_not_name() {
    let mut ns = Ns::new();
    let mut f = ns.new_fn("foo");
    let x1 = f.new_inp("x");
    let x2 = f.new_inp("x");
    assert_ne!(x1, x2);
    assert_eq!(x1.name, "foo/x");
    assert_eq!(x2.name, "foo/x");
    assert_eq!(x1.vtype, VType::Input);
    assert_eq!(f.inps().len(), 2);
}

#[test]
fn values_from_different_functions_differ() {
    let mut ns = Ns::new();
    let mut fa = ns.new_fn("a");
    let mut fb = ns.new_fn("a");
    let xa = fa.new_inp("x");
    let xb = fb.new_inp("x");
    assert_ne!(xa, xb);
    assert_eq!(xa.name, "a/x");
    assert_eq!(xb.name, "a/x");
}

#[test]
fn right_kinds_construct() {
    let mut ns = Ns::new();
    let w = ns.new_raw_param("w");
    let mut f = ns.new_fn("f");
    let x = f.new_inp("x");
    let ix = Op::inp(&mut ns, x);
    let rw = Op::read(&mut ns, w);
    assert_ne!(ix, rw);
    assert_eq!(ix.idx, 0);
    assert_eq!(rw.idx, 1);
    assert!(matches!(ns.nodes[ix.idx], Op::Inp(_)));
    assert!(matches!(ns.nodes[rw.idx], Op::Read(_)));
}

#[test]
fn validation_accepts_declared_input() {
    let mut ns = Ns::new();
    let mut f = ns.new_fn("f");
    let x = f.new_inp("x");
    let ox = Op::inp(&mut ns, x);
    f.add_out(ox);
    let lines = f.dump(&ns).unwrap();
    assert_eq!(lines.len(), 1);
    assert_eq!(lines[0].vtype, VType::Input);
    assert_eq!(lines[0].name, "f/x");
}

#[test]
fn validation_rejects_foreign_input() {
    let mut ns = Ns::new();
    let mut fa = ns.new_fn("a");
    let x = fa.new_inp("x");
    let mut fb = ns.new_fn("b");
    let ox = Op::inp(&mut ns, x);
    fb.add_out(ox);
    let err = fb.dump(&ns).unwrap_err();
    assert_eq!(err, "a/x");
}

#[test]
fn validation_always_accepts_params() {
    let mut ns = Ns::new();
    let w = ns.new_raw_param("w");
    let mut f = ns.new_fn("f");
    let rw = Op::read(&mut ns, w);
    f.add_out(rw);
    let lines = f.dump(&ns).unwrap();
    assert_eq!(lines.len(), 1);
    assert_eq!(lines[0].vtype, VType::Param);
    assert_eq!(lines[0].name, "w");
}

#[test]
fn validation_reports_shared_leaf_per_occurrence() {
    let mut ns = Ns::new();
    let mut f = ns.new_fn("f");
    let x = f.new_inp("x");
    let ox = Op::inp(&mut ns, x);
    let o = Op::add(&mut ns, ox, ox);
    f.add_out(o);
    let lines = f.dump(&ns).unwrap();
    assert_eq!(lines.len(), 2);
    assert_eq!(lines[0].name, "f/x");
    assert_eq!(lines[1].name, "f/x");
}

#[test]
fn empty_function_validates_and_compiles() {
    let mut ns = Ns::new();
    let f = ns.new_fn("empty");
    let lines = f.dump(&ns).unwrap();
    assert!(lines.is_empty());
    let schedule = compile(&ns, &f);
    assert!(schedule.slots.is_empty());
    assert!(schedule.order.is_empty());
}

#[test]
fn topological_order_respects_dependencies() {
    let mut ns = Ns::new();
    let w = ns.new_raw_param("w");
    let mut f = ns.new_fn("f");
    let x = f.new_inp("x");
    let y = f.new_inp("y");
    let ix = Op::inp(&mut ns, x);
    let iy = Op::inp(&mut ns, y);
    let rw = Op::read(&mut ns, w);
    let a = Op::add(&mut ns, ix, iy);
    let b = Op::minus(&mut ns, a, rw);
    let c = Op::add(&mut ns, a, b);
    f.add_out(c);
    let schedule = compile(&ns, &f);
    for (p, o) in schedule.order.iter().enumerate() {
        if let Op::Binary(_, l, r) = &ns.nodes[o.idx] {
            let pl = position(&schedule.order, *l).unwrap();
            let pr = position(&schedule.order, *r).unwrap();
            assert!(pl < p);
            assert!(pr < p);
        }
    }
}

#[test]
fn shared_node_scheduled_exactly_once() {
    let mut ns = Ns::new();
    let mut f = ns.new_fn("f");
    let x = f.new_inp("x");
    let y = f.new_inp("y");
    let shared = Op::inp(&mut ns, x);
    let inner = Op::minus(&mut ns, shared, shared);
    let iy = Op::inp(&mut ns, y);
    let out = Op::minus(&mut ns, inner, iy);
    f.add_out(out);
    let schedule = compile(&ns, &f);
    let occurrences = schedule.order.iter().filter(|o| **o == shared).count();
    assert_eq!(occurrences, 1);
    assert_eq!(schedule.order.len(), 4);
}

#[test]
fn shared_output_scheduled_once_but_dumped_twice() {
    let mut ns = Ns::new();
    let mut f = ns.new_fn("f");
    let x = f.new_inp("x");
    let ox = Op::inp(&mut ns, x);
    f.add_out(ox);
    f.add_out(ox);
    let lines = f.dump(&ns).unwrap();
    assert_eq!(lines.len(), 2);
    let schedule = compile(&ns, &f);
    assert_eq!(schedule.order.len(), 1);
    assert_eq!(schedule.order[0], ox);
}

#[test]
fn slot_assignment_in_declaration_order() {
    let mut ns = Ns::new();
    let mut f = ns.new_fn("f");
    let x = f.new_inp("x");
    let y = f.new_inp("y");
    let schedule = compile(&ns, &f);
    assert_eq!(schedule.slots.len(), 2);
    assert_eq!(schedule.slots[0].0, x);
    assert_eq!(schedule.slots[0].1, 0);
    assert_eq!(schedule.slots[0].0.name, "f/x");
    assert_eq!(schedule.slots[1].0, y);
    assert_eq!(schedule.slots[1].1, 1);
    assert_eq!(schedule.slots[1].0.name, "f/y");
}

#[test]
fn top_sort_skips_visited_nodes() {
    let mut ns = Ns::new();
    let mut f = ns.new_fn("f");
    let x = f.new_inp("x");
    let ox = Op::inp(&mut ns, x);
    let mut visited = vec![false; ns.nodes.len()];
    let mut order = Vec::new();
    top_sort(&ns, ox, &mut visited, &mut order);
    top_sort(&ns, ox, &mut visited, &mut order);
    assert_eq!(order, vec![ox]);
    assert!(visited[ox.idx]);
}

#[test]
fn accessors_expose_declarations() {
    let mut ns = Ns::new();
    let mut f = ns.new_fn("f");
    let x = f.new_inp("x");
    let ox = Op::inp(&mut ns, x);
    f.add_out(ox);
    assert_eq!(f.inps().len(), 1);
    assert_eq!(f.outs().len(), 1);
    assert_eq!(f.outs()[0], ox);
}

#[test]
fn render_leaf_and_binary() {
    let mut ns = Ns::new();
    let w = ns.new_raw_param("w");
    let mut f = ns.new_fn("f");
    let x = f.new_inp("x");
    let ix = Op::inp(&mut ns, x);
    assert_eq!(Op::fmt_with_indent(&ns, ix, 0), "Inp(f/x)");
    let rw = Op::read(&mut ns, w);
    assert_eq!(Op::fmt_with_indent(&ns, rw, 0), "Read(w)");
    let o = Op::add(&mut ns, ix, rw);
    assert_eq!(
        Op::fmt_with_indent(&ns, o, 0),
        "Binary(\n  +- Add,\n  +- Inp(f/x)\n  +- Read(w)\n)"
    );
}

#[test]
fn render_nested_indents() {
    let mut ns = Ns::new();
    let mut f = ns.new_fn("f");
    let x = f.new_inp("x");
    let y = f.new_inp("y");
    let ix = Op::inp(&mut ns, x);
    let iy = Op::inp(&mut ns, y);
    let inner = Op::minus(&mut ns, ix, iy);
    let outer = Op::add(&mut ns, inner, ix);
    let expected = "Binary(\n  +- Add,\n  +- Binary(\n      +- Minus,\n      +- Inp(f/x)\n      +- Inp(f/y)\n    )\n  +- Inp(f/x)\n)";
    assert_eq!(Op::fmt_with_indent(&ns, outer, 0), expected);
}

#[test]
fn end_to_end_scenario() {
    let mut ns = Ns::new();
    let w = ns.new_raw_param("w");
    let mut f = ns.new_fn("foo");
    let x = f.new_inp("x");
    let y = f.new_inp("y");

    let ix1 = Op::inp(&mut ns, x.clone());
    let ix2 = Op::inp(&mut ns, x.clone());
    let inner = Op::minus(&mut ns, ix1, ix2);
    let iy = Op::inp(&mut ns, y.clone());
    let o = Op::minus(&mut ns, inner, iy);
    let rw = Op::read(&mut ns, w);
    let o2 = Op::add(&mut ns, o, rw);
    f.add_out(o2);

    let lines = f.dump(&ns).unwrap();
    let report: Vec<(VType, &str)> = lines.iter().map(|l| (l.vtype, l.name.as_str())).collect();
    assert_eq!(
        report,
        vec![
            (VType::Input, "foo/x"),
            (VType::Input, "foo/x"),
            (VType::Input, "foo/y"),
            (VType::Param, "w"),
        ]
    );

    let schedule = compile(&ns, &f);
    assert_eq!(schedule.slots.len(), 2);
    assert_eq!(schedule.slots[0].0, x);
    assert_eq!(schedule.slots[0].1, 0);
    assert_eq!(schedule.slots[1].0, y);
    assert_eq!(schedule.slots[1].1, 1);

    // both distinct references to x are scheduled, each once, the two
    // subtractions in dependency order, the parameter read, then the add
    assert_eq!(schedule.order, vec![ix1, ix2, inner, iy, o, rw, o2]);
    if let Op::Binary(kind, _, _) = &ns.nodes[schedule.order[6].idx] {
        assert_eq!(*kind, BinOpType::Add);
    } else {
        panic!("last scheduled op should be the final add");
    }
}
