use my_lang::input::{Source, SourceContext};
use my_lang::parse::{Ast, LocAst, Lexer, OpID, Parser};

/// Parses `src_text` as one expression of a file registered for the test.
fn parse_single(src_text: &str) -> LocAst {
    // Create a SourceContext and register a pseudo file for the test
    let mut ctx = SourceContext::new();
    let id = ctx.get_for_path("test_input.txt".to_string()).id;

    // Give the file its text so errors can be mapped back
    ctx.set_file_text(id, Ok(src_text.to_string())).unwrap();

    // Use that file's Source handle in the lexer
    let src = Source::File(id);
    let lexer = Lexer::new(src_text, src);
    let mut parser = Parser::new_default(lexer, &ctx);

    match parser.parse_exp() {
        Ok(Some(ast)) => ast,
        Ok(None) => panic!("no expression parsed in {:?}", src_text),
        Err(e) => {
            // Upgrade with line/column context before panicking
            let mapped = ctx.add_context(e);
            panic!("parse error: {:?}", mapped);
        }
    }
}

/// Assert an OpID equals the expected value.
fn assert_global(opid: &OpID, expected: OpID) {
    assert_eq!(*opid, expected, "expected {:?}, got {:?}", expected, opid);
}

#[test]
fn parses_simple_number() {
    let ast = parse_single("42");
    println!("got {ast:?}");
    match ast.value {
        Ast::IntLit(v) => assert_eq!(v, 42),
        other => panic!("expected IntLit(42), got {:?}", other),
    }
}

#[test]
fn parses_prefix_minus() {
    let ast = parse_single("-5");
    println!("got {ast:?}");
    match &ast.value {
        Ast::Op(call) => {
            assert_global(&call.rator.value, OpID::NEG_PRE());
            match &call.rands[0].value {
                Ast::IntLit(v) => assert_eq!(*v, 5),
                other => panic!("expected IntLit(5), got {:?}", other),
            }
        }
        other => panic!("expected operator AST, got {:?}", other),
    }
}

#[test]
fn parses_prefix_and_infix_star() {
    let ast = parse_single(r#"*"x" * "y""#);
    println!("got {ast:?}");
    match &ast.value {
        Ast::Op(call) => {
            assert_global(&call.rator.value, OpID::MUL_BIN());
            let lhs = &call.rands[0];
            let rhs = &call.rands[1];
            match &lhs.value {
                Ast::Op(inner) => assert_global(&inner.rator.value, OpID::DEREF_PRE()),
                other => panic!("expected prefix *, got {:?}", other),
            }
            match &rhs.value {
                Ast::StringLit(_) => {}
                other => panic!("expected StringLit, got {:?}", other),
            }
        }
        other => panic!("expected infix * at root, got {:?}", other),
    }
}

#[test]
fn parses_double_prefix_and_infix_chain() {
    let ast = parse_single(r#"-"a" * -"b" + "c""#);
    println!("got {ast:?}");
    match &ast.value {
        Ast::Op(call) => {
            assert_global(&call.rator.value, OpID::ADD_BIN());
            let mul_node = &call.rands[0];
            if let Ast::Op(inner) = &mul_node.value {
                assert_global(&inner.rator.value, OpID::MUL_BIN());
                let left = &inner.rands[0];
                let right = &inner.rands[1];
                for operand in [left, right] {
                    match &operand.value {
                        Ast::Op(sub_inner) => {
                            assert_global(&sub_inner.rator.value, OpID::NEG_PRE());
                        }
                        other => panic!("expected unary -, got {:?}", other),
                    }
                }
            } else {
                panic!("expected * node, got {:?}", mul_node.value);
            }
        }
        other => panic!("expected + at root, got {:?}", other),
    }
}

#[test]
fn parses_dot_access_precedence() {
    let ast = parse_single(r#""a"."b" + "c"."d""#);
    println!("got {ast:?}");
    match &ast.value {
        Ast::Op(call) => {
            assert_global(&call.rator.value, OpID::ADD_BIN());
            for side in &call.rands {
                match &side.value {
                    Ast::Op(inner) => assert_global(&inner.rator.value, OpID::DOT()),
                    other => panic!("expected dot access, got {:?}", other),
                }
            }
        }
        other => panic!("expected top-level +, got {:?}", other),
    }
}

#[test]
fn parses_bitwise_ops() {
    let ast = parse_single(r#""a" & "b" | "c" ^ "d""#);
    println!("got {ast:?}");
    match &ast.value {
        Ast::Op(or) => {
            assert_global(&or.rator.value, OpID::BIT_OR());
            let left = &or.rands[0];
            let right = &or.rands[1];
            if let Ast::Op(and) = &left.value {
                assert_global(&and.rator.value, OpID::BIT_AND());
            } else {
                panic!("expected & inside left, got {:?}", left.value);
            }
            if let Ast::Op(xor) = &right.value {
                assert_global(&xor.rator.value, OpID::BIT_XOR());
            } else {
                panic!("expected ^ inside right, got {:?}", right.value);
            }
        }
        other => panic!("expected | as root, got {:?}", other),
    }
}

#[test]
fn parses_logical_and_grouping() {
    let ast = parse_single(r#"!("a" && "b") || "c""#);
    println!("got {ast:?}");
    match &ast.value {
        Ast::Op(or_op) => {
            assert_global(&or_op.rator.value, OpID::LOG_OR());
            let left = &or_op.rands[0];
            if let Ast::Op(not_op) = &left.value {
                assert_global(&not_op.rator.value, OpID::NOT_PRE());
            } else {
                panic!("expected prefix !, got {:?}", left.value);
            }
        }
        other => panic!("expected || as root, got {:?}", other),
    }
}

#[test]
fn parses_assignment() {
    let ast = parse_single(r#""x" = "y""#);
    println!("got {ast:?}");
    match &ast.value {
        Ast::Op(assign) => assert_global(&assign.rator.value, OpID::ASSIGN()),
        other => panic!("expected assignment at root, got {:?}", other),
    }
}

#[test]
fn parses_postfix_qmark() {
    let ast = parse_single(r#""a"?"#);
    println!("got {ast:?}");
    match &ast.value {
        Ast::Op(call) => {
            assert_global(&call.rator.value, OpID::QMARK_POST());
            match &call.rands[0].value {
                Ast::StringLit(_) => {}
                other => panic!("expected StringLit, got {:?}", other),
            }
        }
        other => panic!("expected postfix ? AST, got {:?}", other),
    }
}

#[test]
fn parses_mixed_precedence_chain() {
    let ast = parse_single(r#""a" + "b" << "c"?"#);
    println!("got {ast:?}");
    match &ast.value {
        Ast::Op(add) => {
            assert_global(&add.rator.value, OpID::ADD_BIN());
            let rhs = &add.rands[1];
            if let Ast::Op(shift) = &rhs.value {
                assert_global(&shift.rator.value, OpID::SHL());
                let post = &shift.rands[1];
                if let Ast::Op(postfix) = &post.value {
                    assert_global(&postfix.rator.value, OpID::QMARK_POST());
                } else {
                    panic!("expected postfix ? inside rhs, got {:?}", post.value);
                }
            } else {
                panic!("expected << node inside + rhs, got {:?}", rhs.value);
            }
        }
        other => panic!("expected + as root, got {:?}", other),
    }
}

#[test]
fn parses_assignment_right_associative() {
    // "a" = "b" = "c"
    let ast = parse_single(r#""a" = "b" = "c""#);
    println!("got {ast:?}");
    match &ast.value {
        Ast::Op(outer) => {
            assert_global(&outer.rator.value, OpID::ASSIGN());
            let lhs = &outer.rands[0];
            let rhs = &outer.rands[1];

            match &rhs.value {
                Ast::Op(inner) => {
                    assert_global(&inner.rator.value, OpID::ASSIGN());
                    match &inner.rands[0].value {
                        Ast::StringLit(s) => assert_eq!(s, "b"),
                        other => panic!("expected b, got {:?}", other),
                    }
                    match &inner.rands[1].value {
                        Ast::StringLit(s) => assert_eq!(s, "c"),
                        other => panic!("expected c, got {:?}", other),
                    }
                }
                other => panic!("expected nested assignment on RHS, got {:?}", other),
            }

            match &lhs.value {
                Ast::StringLit(s) => assert_eq!(s, "a"),
                other => panic!("expected a, got {:?}", other),
            }
        }
        other => panic!("expected assignment at root, got {:?}", other),
    }
}

#[test]
fn parses_addition_left_associative() {
    let ast = parse_single(r#""a" + "b" + "c""#);
    println!("got {ast:?}");
    match &ast.value {
        Ast::Op(outer) => {
            assert_global(&outer.rator.value, OpID::ADD_BIN());
            match &outer.rands[0].value {
                Ast::Op(inner) => assert_global(&inner.rator.value, OpID::ADD_BIN()),
                other => panic!("expected nested + on LHS, got {:?}", other),
            }
        }
        other => panic!("expected + as root, got {:?}", other),
    }
}

#[test]
fn parses_unit_expression() {
    // ()
    let ast = parse_single("()");
    println!("got {ast:?}");
    match ast.value {
        Ast::Void => {}
        other => panic!("expected Ast::Void, got {:?}", other),
    }
}

#[test]
fn parses_grouped_expression_not_tuple() {
    // ("a") → just "a"
    let ast = parse_single(r#"("a")"#);
    println!("got {ast:?}");
    match &ast.value {
        Ast::StringLit(s) => assert_eq!(s, "a"),
        other => panic!("expected grouped StringLit(\"a\"), got {:?}", other),
    }
}

#[test]
fn parses_single_element_tuple() {
    // ("a",) → 1-tuple
    let ast = parse_single(r#"("a",)"#);
    println!("got {ast:?}");
    match &ast.value {
        Ast::Op(call) => {
            assert_global(&call.rator.value, OpID::TUPLE());
            assert_eq!(call.rands.len(), 1);
            match &call.rands[0].value {
                Ast::StringLit(s) => assert_eq!(s, "a"),
                other => panic!("expected single tuple element 'a', got {:?}", other),
            }
        }
        other => panic!("expected tuple Op(TUPLE), got {:?}", other),
    }
}

#[test]
fn parses_multi_element_tuple() {
    // ("a", "b", "c")
    let ast = parse_single(r#"("a", "b", "c")"#);
    println!("got {ast:?}");
    match &ast.value {
        Ast::Op(call) => {
            assert_global(&call.rator.value, OpID::TUPLE());
            assert_eq!(call.rands.len(), 3);
            let vals: Vec<_> = call
                .rands
                .iter()
                .map(|x| match &x.value {
                    Ast::StringLit(s) => s.as_str(),
                    other => panic!("expected string lit, got {:?}", other),
                })
                .collect();
            assert_eq!(vals, ["a", "b", "c"]);
        }
        other => panic!("expected tuple Op(TUPLE), got {:?}", other),
    }
}

#[test]
fn parses_nested_tuple_inside_expression() {
    // ("a", ("b", "c"))
    let ast = parse_single(r#"("a", ("b", "c"))"#);
    println!("got {ast:?}");
    match &ast.value {
        Ast::Op(call) => {
            assert_global(&call.rator.value, OpID::TUPLE());
            assert_eq!(call.rands.len(), 2);
            match &call.rands[1].value {
                Ast::Op(inner) => {
                    assert_global(&inner.rator.value, OpID::TUPLE());
                    assert_eq!(inner.rands.len(), 2);
                }
                other => panic!("expected inner tuple as second element, got {:?}", other),
            }
        }
        other => panic!("expected outer tuple, got {:?}", other),
    }
}

#[test]
fn parses_empty_tuple_literal() {
    // "(,)" represents an empty tuple, distinct from void "()"
    let ast = parse_single("(,)");
    println!("got {ast:?}");
    match &ast.value {
        Ast::Op(call) => {
            assert_global(&call.rator.value, OpID::TUPLE());
            assert!(call.rands.is_empty(), "expected 0 tuple elements, got {:?}", call.rands.len());
        }
        other => panic!("expected Ast::Op(TUPLE) for '(,)', got {:?}", other),
    }
}

#[test]
fn parses_simple_function_call_empty() {
    // f()
    let ast = parse_single(r#""f"()"#);
    println!("got {ast:?}");
    match &ast.value {
        Ast::Call(callee, args) => {
            match &callee.value {
                Ast::StringLit(s) => assert_eq!(s, "f"),
                other => panic!("expected callee 'f', got {:?}", other),
            }
            assert!(args.is_empty(), "expected no args, got {:?}", args.len());
        }
        other => panic!("expected Call AST, got {:?}", other),
    }
}

#[test]
fn parses_function_call_with_args() {
    // f("a", "b")
    let ast = parse_single(r#""f"("a","b")"#);
    println!("got {ast:?}");
    match &ast.value {
        Ast::Call(callee, args) => {
            assert_eq!(args.len(), 2, "expected 2 args, got {}", args.len());
            match &callee.value {
                Ast::StringLit(s) => assert_eq!(s, "f"),
                other => panic!("expected callee 'f', got {:?}", other),
            }
            match &args[0].value {
                Ast::StringLit(s) => assert_eq!(s, "a"),
                other => panic!("expected arg1 'a', got {:?}", other),
            }
            match &args[1].value {
                Ast::StringLit(s) => assert_eq!(s, "b"),
                other => panic!("expected arg2 'b', got {:?}", other),
            }
        }
        other => panic!("expected Call AST, got {:?}", other),
    }
}

#[test]
fn parses_nested_function_calls() {
    // f(g("x", "y"))
    let ast = parse_single(r#""f"("g"("x","y"))"#);
    println!("got {ast:?}");
    match &ast.value {
        Ast::Call(outer_callee, outer_args) => {
            assert_eq!(outer_args.len(), 1);
            match &outer_callee.value {
                Ast::StringLit(s) => assert_eq!(s, "f"),
                other => panic!("expected outer callee 'f', got {:?}", other),
            }
            match &outer_args[0].value {
                Ast::Call(inner_callee, inner_args) => {
                    match &inner_callee.value {
                        Ast::StringLit(s) => assert_eq!(s, "g"),
                        other => panic!("expected inner callee 'g', got {:?}", other),
                    }
                    let arg_names: Vec<_> = inner_args
                        .iter()
                        .map(|a| match &a.value {
                            Ast::StringLit(s) => s.clone(),
                            other => panic!("expected string arg, got {:?}", other),
                        })
                        .collect();
                    assert_eq!(arg_names, ["x", "y"]);
                }
                other => panic!("expected inner Call AST, got {:?}", other),
            }
        }
        other => panic!("expected outer Call AST, got {:?}", other),
    }
}

#[test]
fn parses_call_and_infix_mixed_precedence() {
    // f("x") + g("y")
    let ast = parse_single(r#""f"("x") + "g"("y")"#);
    println!("got {ast:?}");
    match &ast.value {
        Ast::Op(op) => {
            assert_global(&op.rator.value, OpID::ADD_BIN());
            match &op.rands[0].value {
                Ast::Call(callee, _) => match &callee.value {
                    Ast::StringLit(s) => assert_eq!(s, "f"),
                    other => panic!("expected left call to 'f', got {:?}", other),
                },
                other => panic!("expected left operand call, got {:?}", other),
            }
            match &op.rands[1].value {
                Ast::Call(callee, _) => match &callee.value {
                    Ast::StringLit(s) => assert_eq!(s, "g"),
                    other => panic!("expected right call to 'g', got {:?}", other),
                },
                other => panic!("expected right operand call, got {:?}", other),
            }
        }
        other => panic!("expected + operator at root, got {:?}", other),
    }
}

#[test]
fn parses_chained_calls_associative() {
    // f("a")("b")  →  (f("a"))("b")
    let ast = parse_single(r#""f"("a")("b")"#);
    println!("got {ast:?}");
    match &ast.value {
        Ast::Call(outer_callee, outer_args) => {
            assert_eq!(outer_args.len(), 1);
            match &outer_callee.value {
                Ast::Call(inner_callee, inner_args) => {
                    assert_eq!(inner_args.len(), 1);
                    match &inner_callee.value {
                        Ast::StringLit(s) => assert_eq!(s, "f"),
                        other => panic!("expected inner callee 'f', got {:?}", other),
                    }
                    match &inner_args[0].value {
                        Ast::StringLit(s) => assert_eq!(s, "a"),
                        other => panic!("expected arg 'a', got {:?}", other),
                    }
                }
                other => panic!("expected nested Call as callee, got {:?}", other),
            }
            match &outer_args[0].value {
                Ast::StringLit(s) => assert_eq!(s, "b"),
                other => panic!("expected arg 'b', got {:?}", other),
            }
        }
        other => panic!("expected Call(AST) chain, got {:?}", other),
    }
}

#[test]
fn parses_call_inside_call_argument() {
    // f(g("a")) → f called with one arg that is g("a")
    let ast = parse_single(r#""f"("g"("a"))"#);
    println!("got {ast:?}");
    match &ast.value {
        Ast::Call(_outer_callee, outer_args) => {
            assert_eq!(outer_args.len(), 1);
            match &outer_args[0].value {
                Ast::Call(inner_callee, inner_args) => {
                    assert_eq!(inner_args.len(), 1);
                    match &inner_callee.value {
                        Ast::StringLit(s) => assert_eq!(s, "g"),
                        other => panic!("expected inner callee 'g', got {:?}", other),
                    }
                    match &inner_args[0].value {
                        Ast::StringLit(s) => assert_eq!(s, "a"),
                        other => panic!("expected inner arg 'a', got {:?}", other),
                    }
                }
                other => panic!("expected inner Call, got {:?}", other),
            }
        }
        other => panic!("expected outer Call, got {:?}", other),
    }
}
