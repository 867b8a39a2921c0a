use simple_parser_ll1::codegen::{
    format_bool_result, format_quads, BoolAttr, CodeGen, ExprAttr, JumpTarget, Operand, Quad,
};

#[test]
fn test_new_temp_starts_from_t1() {
    let mut codegen = CodeGen::new();

    assert_eq!(codegen.new_temp(), Operand::name("t1"));
    assert_eq!(codegen.new_temp(), Operand::name("t2"));
}

#[test]
fn test_emit_returns_quad_index() {
    let mut codegen = CodeGen::new();

    let index = codegen.emit(Quad::Binary {
        op: "+".into(),
        left: Operand::name("a"),
        right: Operand::name("b"),
        dest: Operand::name("t1"),
    });

    assert_eq!(index, 0);
    assert_eq!(codegen.next_quad(), 1);
    assert_eq!(codegen.quads[0].to_string(), "(+, a, b, t1)");
}

#[test]
fn test_empty_operand_and_attrs() {
    assert_eq!(Operand::Empty.to_string(), "_");

    let expr = ExprAttr {
        place: Operand::name("t1"),
    };
    let bool_attr = BoolAttr {
        tc: vec![0],
        fc: vec![1],
    };

    assert_eq!(expr.place, Operand::name("t1"));
    assert_eq!(bool_attr.tc, vec![0]);
    assert_eq!(bool_attr.fc, vec![1]);
}

#[test]
fn test_merge_and_backpatch_jump_targets() {
    let mut codegen = CodeGen::new();
    let tc = codegen.emit(Quad::JumpIf {
        relop: "<".into(),
        left: Operand::name("a"),
        right: Operand::name("b"),
        target: JumpTarget::Pending,
    });
    let fc = codegen.emit(Quad::Jump {
        target: JumpTarget::Pending,
    });

    let list = CodeGen::merge(CodeGen::makelist(tc), CodeGen::makelist(fc));
    codegen.backpatch(&list, 4).unwrap();

    assert_eq!(codegen.quads[0].to_string(), "(j<, a, b, 4)");
    assert_eq!(codegen.quads[1].to_string(), "(j, _, _, 4)");
}

#[test]
fn test_backpatch_rejects_non_jump_quad() {
    let mut codegen = CodeGen::new();
    let index = codegen.emit(Quad::Assign {
        src: Operand::name("t1"),
        dest: Operand::name("a"),
    });

    let err = codegen.backpatch(&[index], 3).unwrap_err();
    assert!(err.contains("不是跳转指令"));
}

#[test]
fn test_format_quads() {
    let mut codegen = CodeGen::new();
    codegen.emit(Quad::Binary {
        op: "*".into(),
        left: Operand::name("b"),
        right: Operand::name("c"),
        dest: Operand::name("t1"),
    });
    codegen.emit(Quad::Assign {
        src: Operand::name("t1"),
        dest: Operand::name("a"),
    });

    assert_eq!(
        format_quads(&codegen),
        "Quadruples:\n0: (*, b, c, t1)\n1: (=, t1, _, a)\n"
    );
}

#[test]
fn test_format_bool_result() {
    let mut codegen = CodeGen::new();
    let tc = codegen.emit(Quad::JumpIf {
        relop: "<".into(),
        left: Operand::name("a"),
        right: Operand::name("b"),
        target: JumpTarget::Pending,
    });
    let fc = codegen.emit(Quad::Jump {
        target: JumpTarget::Pending,
    });
    let attr = BoolAttr {
        tc: vec![tc],
        fc: vec![fc],
    };

    assert_eq!(
        format_bool_result(&codegen, &attr),
        "Quadruples:\n0: (j<, a, b, _)\n1: (j, _, _, _)\n\nTC = [0]\nFC = [1]\n"
    );
}

#[test]
fn temp_numbers_pass_nine() {
    let mut codegen = CodeGen::new();
    let mut last = Operand::Empty;
    for _ in 0..12 {
        last = codegen.new_temp();
    }
    assert_eq!(last, Operand::name("t12"));
    assert_eq!(last.to_string(), "t12");
}

#[test]
fn backpatch_reports_missing_quad() {
    let mut codegen = CodeGen::new();
    codegen.emit(Quad::Jump {
        target: JumpTarget::Pending,
    });
    let err = codegen.backpatch(&[0, 7], 2).unwrap_err();
    assert_eq!(err, "回填错误: 四元组编号 7 不存在");
    // the entries before the failing one stay patched
    assert_eq!(codegen.quads[0].to_string(), "(j, _, _, 2)");
}

#[test]
fn backpatch_of_empty_chain_changes_nothing() {
    let mut codegen = CodeGen::new();
    codegen.emit(Quad::Jump {
        target: JumpTarget::Pending,
    });
    codegen.backpatch(&[], 5).unwrap();
    assert_eq!(codegen.quads[0].to_string(), "(j, _, _, _)");
}

#[test]
fn backpatch_sets_only_listed_jumps() {
    let mut codegen = CodeGen::new();
    for _ in 0..3 {
        codegen.emit(Quad::Jump {
            target: JumpTarget::Pending,
        });
    }
    codegen.backpatch(&[2, 0], 11).unwrap();
    assert_eq!(codegen.quads[0].to_string(), "(j, _, _, 11)");
    assert_eq!(codegen.quads[1].to_string(), "(j, _, _, _)");
    assert_eq!(codegen.quads[2].to_string(), "(j, _, _, 11)");
}

#[test]
fn merge_keeps_order() {
    assert_eq!(CodeGen::merge(vec![3, 1], vec![4, 1, 5]), vec![3, 1, 4, 1, 5]);
    assert_eq!(CodeGen::merge(vec![], vec![2]), vec![2]);
    assert_eq!(CodeGen::makelist(9), vec![9]);
}

#[test]
fn jump_target_and_quad_rendering() {
    assert_eq!(JumpTarget::Pending.to_string(), "_");
    assert_eq!(JumpTarget::Target(120).to_string(), "120");
    let q = Quad::JumpIf {
        relop: "!=".into(),
        left: Operand::name("x"),
        right: Operand::Empty,
        target: JumpTarget::Target(0),
    };
    assert_eq!(q.to_string(), "(j!=, x, _, 0)");
    assert_eq!(q.clone(), q);
}

#[test]
fn bool_result_lists_several_indices() {
    let codegen = CodeGen::new();
    let attr = BoolAttr {
        tc: vec![0, 4, 10],
        fc: vec![],
    };
    assert_eq!(
        format_bool_result(&codegen, &attr),
        "Quadruples:\n\nTC = [0, 4, 10]\nFC = []\n"
    );
}

#[test]
fn default_generator_is_empty() {
    let mut codegen = CodeGen::default();
    assert_eq!(codegen.next_quad(), 0);
    assert_eq!(codegen.new_temp(), Operand::name("t1"));
    assert_eq!(format_quads(&codegen), "Quadruples:\n");
}
