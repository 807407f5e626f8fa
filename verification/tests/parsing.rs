use taylor_expr::func::Func;
use taylor_expr::node::Node;
use taylor_expr::postfix::vec_infix_to_postfix;
use taylor_expr::tokenize::{string_to_vec_of_node, ParseError};
use taylor_expr::tree::{postfix_to_tree, str_to_tree_iter};

fn ops_of(v: &Vec<Node>) -> Vec<Func> {
    let mut r = Vec::new();
    for n in v {
        r.push(n.op);
    }
    r
}

#[test]
fn tokenize_sin_plus_cos() {
    let toks = string_to_vec_of_node("sin(x)+cos(x)").unwrap();
    assert_eq!(
        ops_of(&toks),
        vec![
            Func::Sin,
            Func::Ob,
            Func::X,
            Func::Cb,
            Func::Add,
            Func::Cos,
            Func::Ob,
            Func::X,
            Func::Cb,
        ]
    );
}

#[test]
fn tokenize_number_and_keywords() {
    let toks = string_to_vec_of_node("3.5*sqrt(x)").unwrap();
    assert_eq!(
        ops_of(&toks),
        vec![Func::Const, Func::Mul, Func::Sqrt, Func::Ob, Func::X, Func::Cb]
    );
    let c = toks[0].c.unwrap();
    assert_eq!(c.num, 7);
    assert_eq!(c.den, 2);
}

#[test]
fn tokenize_malformed_literal() {
    let r = string_to_vec_of_node("1.2.3+x");
    assert!(matches!(r, Err(ParseError::MalformedLiteral { .. })));
}

#[test]
fn tokenize_unrecognized_token() {
    let r = string_to_vec_of_node("x+abcde");
    assert!(matches!(r, Err(ParseError::UnrecognizedToken { .. })));
}

#[test]
fn tokenize_drops_short_trailing_garbage() {
    // A trailing candidate that runs past the end of the input ends the
    // scan without a token, as the scanner's window never reaches it.
    let toks = string_to_vec_of_node("xq").unwrap();
    assert_eq!(ops_of(&toks), vec![Func::X]);
}

#[test]
fn sequence_one_plus_two_times_three() {
    let toks = string_to_vec_of_node("1+2*3").unwrap();
    let post = vec_infix_to_postfix(toks);
    assert_eq!(
        ops_of(&post),
        vec![Func::Const, Func::Const, Func::Const, Func::Mul, Func::Add]
    );
    assert_eq!(post[0].c.unwrap().num, 1);
    assert_eq!(post[1].c.unwrap().num, 2);
    assert_eq!(post[2].c.unwrap().num, 3);
    assert_eq!(post[0].c.unwrap().den, 1);
}

#[test]
fn sequence_power_right_associative() {
    let toks = string_to_vec_of_node("2^3^2").unwrap();
    let post = vec_infix_to_postfix(toks);
    let toks2 = string_to_vec_of_node("2^(3^2)").unwrap();
    let post2 = vec_infix_to_postfix(toks2);
    assert_eq!(ops_of(&post), ops_of(&post2));
    let nums: Vec<i64> = post.iter().map(|n| n.c.map(|c| c.num).unwrap_or(0)).collect();
    let nums2: Vec<i64> = post2.iter().map(|n| n.c.map(|c| c.num).unwrap_or(0)).collect();
    assert_eq!(nums, nums2);
    assert_eq!(
        ops_of(&post),
        vec![Func::Const, Func::Const, Func::Const, Func::Pow, Func::Pow]
    );
}

#[test]
fn sequence_brackets_discarded() {
    let toks = string_to_vec_of_node("(1+2)*3").unwrap();
    let post = vec_infix_to_postfix(toks);
    assert_eq!(
        ops_of(&post),
        vec![Func::Const, Func::Const, Func::Add, Func::Const, Func::Mul]
    );
}

#[test]
fn build_unary_tree_from_postfix() {
    let toks = vec![
        Node::new_value(Func::X, None),
        Node::new_value(Func::Sin, None),
    ];
    let root = postfix_to_tree(&toks).unwrap();
    assert_eq!(root.op, Func::Sin);
    let child = root.first.as_ref().unwrap();
    assert_eq!(child.op, Func::X);
    assert!(child.first.is_none());
    assert!(root.second.is_none());
}

#[test]
fn build_rejects_empty_postfix() {
    let toks: Vec<Node> = Vec::new();
    assert!(matches!(
        postfix_to_tree(&toks),
        Err(ParseError::MalformedPostfix)
    ));
}

#[test]
fn build_rejects_missing_operands() {
    let toks = vec![Node::new_value(Func::Add, None)];
    assert!(matches!(
        postfix_to_tree(&toks),
        Err(ParseError::MalformedPostfix)
    ));
}

#[test]
fn full_pipeline_builds_tree() {
    let root = str_to_tree_iter("sin(x)+1").unwrap();
    assert_eq!(root.op, Func::Add);
    let l = root.first.as_ref().unwrap();
    let r = root.second.as_ref().unwrap();
    assert_eq!(l.op, Func::Sin);
    assert_eq!(l.first.as_ref().unwrap().op, Func::X);
    assert_eq!(r.op, Func::Const);
    assert_eq!(r.c.unwrap().num, 1);
}

#[test]
fn node_constructors_and_copy() {
    let n = Node::new();
    assert_eq!(n.op, Func::Nil);
    assert!(n.first.is_none() && n.second.is_none() && n.c.is_none());
    let root = str_to_tree_iter("x*2").unwrap();
    let copy = root.return_copy();
    assert_eq!(copy.op, Func::Mul);
    assert_eq!(copy.first.as_ref().unwrap().op, Func::X);
    assert_eq!(copy.second.as_ref().unwrap().c.unwrap().num, 2);
}

#[test]
fn subseq_round_trip() {
    let s = taylor_expr::node::Subseq::new(String::from("%1 = fadd double %a, %b"), 7);
    assert_eq!(s.return_code(), String::from("%1 = fadd double %a, %b"));
}

#[test]
fn func_symbols() {
    assert_eq!(Func::Add.symbol(), "+");
    assert_eq!(Func::Exp.symbol(), "e^");
    assert_eq!(Func::Sqrt.symbol(), "sqrt");
    assert_eq!(Func::Ob.symbol(), "(");
    assert_eq!(Func::Atg.symbol(), "arctg");
    assert_eq!(Func::Actg.symbol(), "arcctg");
    assert_eq!(Func::Asin.symbol(), "arcsin");
    assert_eq!(Func::Acos.symbol(), "arccos");
    assert_eq!(Func::Nil.symbol(), "None");
}

#[test]
fn malformed_literal_reports_fragment() {
    match string_to_vec_of_node("1.2.3+x") {
        Err(ParseError::MalformedLiteral { text }) => {
            assert_eq!(text, b"1.2.3".to_vec());
        }
        _ => panic!("expected a malformed-literal error"),
    }
}

#[test]
fn unrecognized_token_reports_fragment() {
    match string_to_vec_of_node("x+abcde") {
        Err(ParseError::UnrecognizedToken { text, len }) => {
            assert_eq!(text, b"abcde".to_vec());
            assert_eq!(len, 5);
        }
        _ => panic!("expected an unrecognized-token error"),
    }
}

#[test]
fn split_at_top_level_ops() {
    let (chunks, ops) = taylor_expr::split::split_by_ops(
        &String::from("sin(x+1)*x/2"),
        '*',
        '/',
        Func::Mul,
        Func::Div,
    );
    let expect: Vec<String> = vec![
        String::from("sin(x+1)"),
        String::from("x"),
        String::from("2"),
    ];
    assert_eq!(chunks, expect);
    assert_eq!(ops, vec![Func::Mul, Func::Div]);
}

#[test]
fn split_without_ops_returns_whole() {
    let (chunks, ops) = taylor_expr::split::split_by_ops(
        &String::from("sin(x+1)"),
        '*',
        '/',
        Func::Mul,
        Func::Div,
    );
    assert_eq!(chunks, vec![String::from("sin(x+1)")]);
    assert!(ops.is_empty());
}
