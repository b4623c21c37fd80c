use eye::checks::{check_value_recursion, DeclName};
use eye::errors::TypeError;
use eye::typegraph::{
    collect_type_nodes, compute_scc, cyclic_nodes, hard_deps, same_value_cycle, topo_order, Nominal, TypeDecls,
    TypeNode,
};
use eye::types::{TypeInterner, TypeKind, TypeRef};

fn path(types: &mut TypeInterner, name: &str) -> TypeRef {
    types.intern(TypeKind::Path(name.to_string()))
}

fn structure(name: &str, fields: Vec<TypeRef>) -> Nominal {
    Nominal { name: name.to_string(), field_types: fields }
}

fn decl_names(names: &[&str]) -> Vec<DeclName> {
    names
        .iter()
        .enumerate()
        .map(|(i, n)| DeclName { start: (i * 10) as u32, end: (i * 10 + n.len()) as u32, name: n.to_string() })
        .collect()
}

fn nominal(name: &str) -> TypeNode {
    TypeNode::Nominal(name.to_string())
}

fn recursion_errors(decls: &TypeDecls, types: &TypeInterner, names: &[&str]) -> Vec<String> {
    check_value_recursion(decls, types, &decl_names(names))
        .into_iter()
        .map(|(_, _, e)| match e {
            TypeError::RecursiveValueType { name } => name,
            other => panic!("unexpected diagnostic: {other:?}"),
        })
        .collect()
}

/// `structure A { A a }`, `structure A { B b }; structure B { A a }` and
/// `structure A { [A; 4] xs }` are all value-recursive.
fn value_recursive_cases() {
    let mut types = TypeInterner::new();
    let a = path(&mut types, "A");
    let decls = TypeDecls { structs: vec![structure("A", vec![a])], unions: vec![], declared: vec![a] };
    assert_eq!(recursion_errors(&decls, &types, &["A"]), vec!["A".to_string()]);

    let mut types = TypeInterner::new();
    let a = path(&mut types, "A");
    let b = path(&mut types, "B");
    let decls = TypeDecls {
        structs: vec![structure("A", vec![b]), structure("B", vec![a])],
        unions: vec![],
        declared: vec![b, a],
    };
    assert!(!recursion_errors(&decls, &types, &["A", "B"]).is_empty());

    let mut types = TypeInterner::new();
    let a = path(&mut types, "A");
    let arr = types.intern(TypeKind::Array { elem: a, len: 4 });
    let decls = TypeDecls { structs: vec![structure("A", vec![arr])], unions: vec![], declared: vec![arr] };
    assert!(!recursion_errors(&decls, &types, &["A"]).is_empty());
}

#[test]
fn tests_value_recursive_struct_is_rejected() {
    value_recursive_cases();
}

#[test]
fn structs_value_recursive_struct_is_rejected() {
    value_recursive_cases();
}

fn mutual_recursion_once() {
    let mut types = TypeInterner::new();
    let a = path(&mut types, "A");
    let b = path(&mut types, "B");
    let decls = TypeDecls {
        structs: vec![structure("A", vec![b]), structure("B", vec![a])],
        unions: vec![],
        declared: vec![b, a],
    };
    let errs = recursion_errors(&decls, &types, &["A", "B"]);
    assert_eq!(errs.len(), 1, "a mutual recursion must report once, got {}: {:?}", errs.len(), errs);
    assert_eq!(errs[0], "A");
}

#[test]
fn tests_mutual_recursion_reports_one_diagnostic() {
    mutual_recursion_once();
}

#[test]
fn structs_mutual_recursion_reports_one_diagnostic() {
    mutual_recursion_once();
}

/// `Node* next`, `[&Node; 4] kids` and `&[Node; 4] kids` are pointer
/// self-references: soft edges, no cycle.
fn pointer_self_reference_clean() {
    let mut types = TypeInterner::new();
    let int32 = types.int32_ty();
    let node = path(&mut types, "Node");
    let ptr = types.intern(TypeKind::Ptr(node));
    let decls = TypeDecls { structs: vec![structure("Node", vec![int32, ptr])], unions: vec![], declared: vec![int32, ptr] };
    assert!(recursion_errors(&decls, &types, &["Node"]).is_empty());

    let mut types = TypeInterner::new();
    let int32 = types.int32_ty();
    let node = path(&mut types, "Node");
    let r = types.intern(TypeKind::Ref(node));
    let arr = types.intern(TypeKind::Array { elem: r, len: 4 });
    let decls = TypeDecls { structs: vec![structure("Node", vec![int32, arr])], unions: vec![], declared: vec![int32, arr] };
    assert!(recursion_errors(&decls, &types, &["Node"]).is_empty());

    let mut types = TypeInterner::new();
    let int32 = types.int32_ty();
    let node = path(&mut types, "Node");
    let arr = types.intern(TypeKind::Array { elem: node, len: 4 });
    let r = types.intern(TypeKind::Ref(arr));
    let decls = TypeDecls { structs: vec![structure("Node", vec![int32, r])], unions: vec![], declared: vec![int32, r] };
    assert!(recursion_errors(&decls, &types, &["Node"]).is_empty());
}

#[test]
fn tests_pointer_self_reference_is_accepted() {
    pointer_self_reference_clean();
}

#[test]
fn structs_pointer_self_reference_is_accepted() {
    pointer_self_reference_clean();
}

fn array_field_clean() {
    let mut types = TypeInterner::new();
    let int32 = types.int32_ty();
    let arr = types.intern(TypeKind::Array { elem: int32, len: 4 });
    let decls = TypeDecls { structs: vec![structure("Buf", vec![arr])], unions: vec![], declared: vec![arr] };
    assert!(recursion_errors(&decls, &types, &["Buf"]).is_empty());
}

#[test]
fn tests_array_struct_field_is_accepted() {
    array_field_clean();
}

#[test]
fn structs_array_struct_field_is_accepted() {
    array_field_clean();
}

#[test]
fn scc_membership_and_same_cycle() {
    let mut types = TypeInterner::new();
    let a = path(&mut types, "A");
    let b = path(&mut types, "B");
    let c = path(&mut types, "C");
    let d = path(&mut types, "D");
    // A <-> B is a cycle, C holds A by value (outside the cycle), D holds
    // itself.
    let decls = TypeDecls {
        structs: vec![
            structure("A", vec![b]),
            structure("B", vec![a]),
            structure("C", vec![a]),
            structure("D", vec![d]),
        ],
        unions: vec![],
        declared: vec![],
    };
    let scc = compute_scc(&decls, &types);
    assert!(!scc.is_empty());
    assert!(scc.contains(&nominal("A")));
    assert!(scc.contains(&nominal("B")));
    assert!(!scc.contains(&nominal("C")));
    assert!(scc.contains(&nominal("D")));
    assert!(!scc.contains(&nominal("Z")));
    assert!(scc.same_cycle(&nominal("A"), &nominal("B")));
    assert!(scc.same_cycle(&nominal("B"), &nominal("A")));
    assert!(!scc.same_cycle(&nominal("A"), &nominal("C")));
    assert!(!scc.same_cycle(&nominal("A"), &nominal("D")));
    assert!(scc.same_cycle(&nominal("D"), &nominal("D")));
    assert_eq!(cyclic_nodes(&decls, &types), vec![nominal("A"), nominal("B"), nominal("D")]);
    assert!(same_value_cycle(&decls, &types, &nominal("A"), &nominal("B")));
    assert!(!same_value_cycle(&decls, &types, &nominal("C"), &nominal("C")));
    let errs = recursion_errors(&decls, &types, &["A", "B", "C", "D"]);
    assert_eq!(errs, vec!["A".to_string(), "D".to_string()]);
}

#[test]
fn acyclic_graph_has_no_cycles() {
    let mut types = TypeInterner::new();
    let int32 = types.int32_ty();
    let p = path(&mut types, "P");
    let decls = TypeDecls {
        structs: vec![structure("P", vec![int32, int32]), structure("Q", vec![p])],
        unions: vec![],
        declared: vec![],
    };
    let scc = compute_scc(&decls, &types);
    assert!(scc.is_empty());
    assert!(cyclic_nodes(&decls, &types).is_empty());
}

#[test]
fn nodes_are_nominals_then_wrappers_innermost_first() {
    let mut types = TypeInterner::new();
    let int32 = types.int32_ty();
    let inner = types.intern(TypeKind::Array { elem: int32, len: 2 });
    let outer = types.intern(TypeKind::Array { elem: inner, len: 3 });
    let f = types.intern(TypeKind::Fn { params: vec![outer], ret: None, variadic: false });
    let decls = TypeDecls {
        structs: vec![structure("S", vec![outer])],
        unions: vec![structure("U", vec![int32])],
        declared: vec![outer, f, inner],
    };
    let nodes = collect_type_nodes(&decls, &types);
    assert_eq!(
        nodes,
        vec![
            nominal("S"),
            nominal("U"),
            TypeNode::Array { elem: int32, len: 2 },
            TypeNode::Array { elem: inner, len: 3 },
            TypeNode::Fn { params: vec![outer], ret: None, variadic: false },
        ]
    );
}

#[test]
fn hard_deps_skip_pointers_but_keep_fn_typedefs() {
    let mut types = TypeInterner::new();
    let s = path(&mut types, "S");
    let ptr = types.intern(TypeKind::Ptr(s));
    let arr = types.intern(TypeKind::Array { elem: s, len: 2 });
    let f = types.intern(TypeKind::Fn { params: vec![s], ret: Some(ptr), variadic: true });
    let decls = TypeDecls { structs: vec![structure("S", vec![])], unions: vec![], declared: vec![] };
    let mut out = Vec::new();
    hard_deps(&decls, &types, ptr, &mut out);
    assert!(out.is_empty());
    hard_deps(&decls, &types, arr, &mut out);
    assert_eq!(out, vec![TypeNode::Array { elem: s, len: 2 }, nominal("S")]);
    let mut out = Vec::new();
    hard_deps(&decls, &types, f, &mut out);
    assert_eq!(out, vec![TypeNode::Fn { params: vec![s], ret: Some(ptr), variadic: true }, nominal("S")]);
}

#[test]
fn topo_order_puts_dependencies_first() {
    let mut types = TypeInterner::new();
    let int32 = types.int32_ty();
    let b = path(&mut types, "B");
    let c = path(&mut types, "C");
    let arr_c = types.intern(TypeKind::Array { elem: c, len: 2 });
    // A holds B by value, B holds [C; 2], C holds an int32.
    let decls = TypeDecls {
        structs: vec![structure("A", vec![b]), structure("B", vec![arr_c]), structure("C", vec![int32])],
        unions: vec![],
        declared: vec![arr_c],
    };
    let order = topo_order(&decls, &types, &Vec::new());
    assert_eq!(
        order,
        vec![nominal("C"), TypeNode::Array { elem: c, len: 2 }, nominal("B"), nominal("A")]
    );
}

#[test]
fn topo_order_appends_cycle_members_and_extra_wrappers() {
    let mut types = TypeInterner::new();
    let int32 = types.int32_ty();
    let a = path(&mut types, "A");
    let b = path(&mut types, "B");
    let extra = types.intern(TypeKind::Array { elem: int32, len: 9 });
    let decls = TypeDecls {
        structs: vec![structure("A", vec![b]), structure("B", vec![a]), structure("K", vec![int32])],
        unions: vec![],
        declared: vec![],
    };
    let order = topo_order(&decls, &types, &vec![extra]);
    assert_eq!(
        order,
        vec![nominal("K"), TypeNode::Array { elem: int32, len: 9 }, nominal("A"), nominal("B")]
    );
}

#[test]
fn fn_typedef_is_never_on_a_cycle() {
    // `structure S { (S) -> S f }`: S embeds the typedef by value; the
    // typedef's own parameter and return need only a forward declaration,
    // so the typedef node depends on nothing. (Walking the field type
    // itself, the parameter `S` is reached by value, so S depends on S.)
    let mut types = TypeInterner::new();
    let s = path(&mut types, "S");
    let f = types.intern(TypeKind::Fn { params: vec![s], ret: Some(s), variadic: false });
    let decls = TypeDecls { structs: vec![structure("S", vec![f])], unions: vec![], declared: vec![f] };
    let fnode = TypeNode::Fn { params: vec![s], ret: Some(s), variadic: false };
    let scc = compute_scc(&decls, &types);
    assert!(!scc.contains(&fnode));
    assert!(!scc.same_cycle(&fnode, &nominal("S")));
    assert!(scc.contains(&nominal("S")));
    assert_eq!(topo_order(&decls, &types, &Vec::new()), vec![fnode, nominal("S")]);
}

#[test]
fn topo_order_is_a_permutation_with_dependencies_first() {
    let mut types = TypeInterner::new();
    let int32 = types.int32_ty();
    let names = ["N0", "N1", "N2", "N3", "N4", "N5"];
    let refs: Vec<TypeRef> = names.iter().map(|n| path(&mut types, n)).collect();
    // N_i holds N_{i+2} and N_{i+3} by value where those exist.
    let structs: Vec<Nominal> = (0..names.len())
        .map(|i| {
            let mut fields = vec![int32];
            for d in [2, 3] {
                if i + d < names.len() {
                    fields.push(refs[i + d]);
                }
            }
            structure(names[i], fields)
        })
        .collect();
    let decls = TypeDecls { structs, unions: vec![], declared: vec![] };
    let order = topo_order(&decls, &types, &Vec::new());
    assert_eq!(order.len(), names.len());
    let pos = |n: &str| order.iter().position(|x| *x == nominal(n)).unwrap();
    for i in 0..names.len() {
        for d in [2, 3] {
            if i + d < names.len() {
                assert!(pos(names[i + d]) < pos(names[i]), "{} must precede {}", names[i + d], names[i]);
            }
        }
    }
}
