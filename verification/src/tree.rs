//! Tree builder: folds the postfix sequence into the expression tree. A
//! unary-function token attaches the immediately preceding unattached node
//! as its single child; a binary-operator token attaches the two preceding
//! unattached nodes (first the earlier, second the later). Exactly one
//! node must remain: the root. An empty sequence, an operator with too few
//! operands, or leftover unattached nodes are fatal.

use vstd::prelude::*;
use crate::func::Func;
use crate::node::Node;
use crate::postfix::{postfix_spec, vec_infix_to_postfix};
use crate::tokenize::{ParseError, string_to_vec_of_node, tok_spec, token_node, token_ok};
use vstd::string::StringSliceAdditionalSpecFns;

verus! {

/// Number of unattached nodes after folding the postfix tokens from `i`
/// onward, starting from `d`; `None` when an operator lacks operands.
pub open spec fn build_depth(toks: Seq<Node>, i: int, d: int) -> Option<int>
    decreases toks.len() - i,
{
    if i < 0 || i >= toks.len() {
        Option::Some(d)
    } else {
        let t = toks[i];
        if t.op.spec_is_unary() {
            if d >= 1 {
                build_depth(toks, i + 1, d)
            } else {
                Option::None
            }
        } else if t.op.spec_is_binary() {
            if d >= 2 {
                build_depth(toks, i + 1, d - 1)
            } else {
                Option::None
            }
        } else {
            build_depth(toks, i + 1, d + 1)
        }
    }
}

/// Postorder serialization of a tree: each node lists its children's
/// serializations first, then its own bare token. Folding a postfix
/// sequence must invert this exactly.
pub open spec fn postorder(n: Node) -> Seq<Node>
    decreases n,
{
    match n.first {
        Option::Some(f) => match n.second {
            Option::Some(sn) => postorder(*f) + postorder(*sn) + seq![token_node(n.op, n.c)],
            Option::None => postorder(*f) + seq![token_node(n.op, n.c)],
        },
        Option::None => match n.second {
            Option::Some(sn) => postorder(*sn) + seq![token_node(n.op, n.c)],
            Option::None => seq![token_node(n.op, n.c)],
        },
    }
}

/// Concatenated postorders of a worklist of unattached nodes.
pub open spec fn cat_postorders(st: Seq<Node>) -> Seq<Node>
    decreases st.len(),
{
    if st.len() == 0 {
        Seq::empty()
    } else {
        cat_postorders(st.drop_last()) + postorder(st.last())
    }
}

/// Appending a node to the worklist appends its postorder.
proof fn lemma_cat_push(st: Seq<Node>, n: Node)
    ensures
        cat_postorders(st.push(n)) == cat_postorders(st) + postorder(n),
{
    assert(st.push(n).drop_last() =~= st);
    assert(st.push(n).last() == n);
}

/// Tokens a tree can be built from: bare tokens whose tags are operators,
/// the variable or a well-formed constant.
pub open spec fn toks_buildable(ts: Seq<Node>) -> bool {
    forall|j: int|
        0 <= j < ts.len() ==> token_ok(#[trigger] ts[j]) && (ts[j].op.spec_is_unary()
            || ts[j].op.spec_is_binary() || ts[j].op == Func::X || ts[j].op == Func::Const)
}

/// Fold a postfix sequence into its expression tree. Succeeds exactly when
/// the arity scan leaves one node; on bare tokens the tree's postorder
/// serialization is the postfix sequence itself, which fixes every node
/// and child; on buildable tokens the result also satisfies the tree
/// invariant.
#[verifier::loop_isolation(false)]
pub fn postfix_to_tree(list: &Vec<Node>) -> (r: Result<Node, ParseError>)
    ensures
        r is Ok <==> build_depth(list@, 0, 0) == Option::Some(1int),
        r matches Err(e) ==> e matches ParseError::MalformedPostfix,
        r matches Ok(root) ==> {
            &&& (toks_buildable(list@) ==> root.ast_wf())
            &&& ((forall|j: int| 0 <= j < list@.len() ==> (#[trigger] list@[j]).is_token())
                ==> postorder(root) == list@)
            &&& list@.len() >= 1
            &&& ((list@.last().op.spec_is_unary() || list@.last().op.spec_is_binary())
                ==> root.op == list@.last().op)
            &&& (list@.len() == 1 ==> root == list@[0])
        },
{
    let mut stack: Vec<Node> = Vec::new();
    let mut i: usize = 0;
    while i < list.len()
        invariant
            i <= list.len(),
            i == 0 ==> stack@.len() == 0,
            build_depth(list@, 0, 0) == build_depth(list@, i as int, stack@.len() as int),
            toks_buildable(list@) ==> forall|j: int|
                0 <= j < stack@.len() ==> (#[trigger] stack@[j]).ast_wf(),
            i >= 1 && (list@[i - 1].op.spec_is_unary() || list@[i - 1].op.spec_is_binary())
                ==> stack@.len() >= 1 && stack@.last().op == list@[i - 1].op,
            i == 1 && !(list@[0].op.spec_is_unary() || list@[0].op.spec_is_binary())
                ==> stack@.len() == 1 && stack@[0] == list@[0],
            (forall|j: int| 0 <= j < list@.len() ==> (#[trigger] list@[j]).is_token())
                ==> cat_postorders(stack@) == list@.subrange(0, i as int),
        decreases list.len() - i,
    {
        let ghost all_tokens = forall|j: int|
            0 <= j < list@.len() ==> (#[trigger] list@[j]).is_token();
        let t = list[i].return_copy();
        if t.op.is_unary() {
            if stack.len() < 1 {
                return Err(ParseError::MalformedPostfix);
            }
            let child = match stack.pop() {
                Option::Some(n) => n,
                Option::None => {
                    proof {
                        assert(false);
                    }
                    Node::new()
                },
            };
            let nd = Node {
                first: Option::Some(Box::new(child)),
                second: Option::None,
                op: t.op,
                c: t.c,
            };
            let ghost st0 = stack@;
            stack.push(nd);
            proof {
                if all_tokens {
                    assert(postorder(nd) =~= postorder(child) + seq![token_node(t.op, t.c)]);
                    assert(token_node(t.op, t.c) == list@[i as int]);
                    lemma_cat_push(st0, child);
                    lemma_cat_push(st0, nd);
                    assert(cat_postorders(stack@) == cat_postorders(st0) + postorder(nd));
                    assert(cat_postorders(stack@) =~= list@.subrange(0, i as int) + seq![
                        list@[i as int],
                    ]);
                    assert(cat_postorders(stack@) =~= list@.subrange(0, i as int + 1));
                }
            }
        } else if t.op.is_binary() {
            if stack.len() < 2 {
                return Err(ParseError::MalformedPostfix);
            }
            let second = match stack.pop() {
                Option::Some(n) => n,
                Option::None => {
                    proof {
                        assert(false);
                    }
                    Node::new()
                },
            };
            let first = match stack.pop() {
                Option::Some(n) => n,
                Option::None => {
                    proof {
                        assert(false);
                    }
                    Node::new()
                },
            };
            let nd = Node {
                first: Option::Some(Box::new(first)),
                second: Option::Some(Box::new(second)),
                op: t.op,
                c: t.c,
            };
            let ghost st0 = stack@;
            stack.push(nd);
            proof {
                if all_tokens {
                    assert(postorder(nd) =~= postorder(first) + postorder(second) + seq![
                        token_node(t.op, t.c),
                    ]);
                    assert(token_node(t.op, t.c) == list@[i as int]);
                    lemma_cat_push(st0.push(first), second);
                    lemma_cat_push(st0, first);
                    lemma_cat_push(st0, nd);
                    assert(cat_postorders(stack@) == cat_postorders(st0) + postorder(nd));
                    assert(cat_postorders(stack@) =~= (cat_postorders(st0) + postorder(first)
                        + postorder(second)) + seq![list@[i as int]]);
                    assert(cat_postorders(stack@) =~= list@.subrange(0, i as int) + seq![
                        list@[i as int],
                    ]);
                    assert(cat_postorders(stack@) =~= list@.subrange(0, i as int + 1));
                }
            }
        } else {
            let ghost st0 = stack@;
            stack.push(t);
            proof {
                if all_tokens {
                    assert(t.is_token());
                    assert(postorder(t) =~= seq![token_node(t.op, t.c)]);
                    assert(token_node(t.op, t.c) == t);
                    lemma_cat_push(st0, t);
                    assert(cat_postorders(stack@) == cat_postorders(st0) + postorder(t));
                    assert(cat_postorders(stack@) =~= list@.subrange(0, i as int + 1));
                }
            }
        }
        i += 1;
    }
    if stack.len() != 1 {
        return Err(ParseError::MalformedPostfix);
    }
    let ghost stfin = stack@;
    let root = match stack.pop() {
        Option::Some(n) => n,
        Option::None => {
            proof {
                assert(false);
            }
            Node::new()
        },
    };
    proof {
        if forall|j: int| 0 <= j < list@.len() ==> (#[trigger] list@[j]).is_token() {
            assert(stfin =~= Seq::<Node>::empty().push(root));
            lemma_cat_push(Seq::<Node>::empty(), root);
            assert(cat_postorders(Seq::<Node>::empty()) + postorder(root) =~= postorder(root));
            assert(cat_postorders(stfin) == list@.subrange(0, list@.len() as int));
            assert(list@.subrange(0, list@.len() as int) =~= list@);
        }
    }
    Ok(root)
}

/// The whole pipeline: scan the expression string, sequence it into
/// postfix order, and fold that into the expression tree.
pub fn str_to_tree_iter(function: &str) -> (r: Result<Node, ParseError>)
    ensures
        r is Ok <==> (tok_spec(function.spec_bytes(), 0, 1) matches Result::Ok(ts)
            && build_depth(postfix_spec(ts), 0, 0) == Option::Some(1int)),
        r matches Ok(root) ==> {
            let pf = postfix_spec(tok_spec(function.spec_bytes(), 0, 1)->Ok_0);
            &&& (toks_buildable(pf) ==> root.ast_wf())
            &&& (toks_buildable(pf) ==> postorder(root) == pf)
            &&& pf.len() >= 1
            &&& ((pf.last().op.spec_is_unary() || pf.last().op.spec_is_binary()) ==> root.op
                == pf.last().op)
            &&& (pf.len() == 1 ==> root == pf[0])
        },
{
    let toks = match string_to_vec_of_node(function) {
        Ok(v) => v,
        Err(e) => {
            return Err(e);
        },
    };
    let list = vec_infix_to_postfix(toks);
    let r = postfix_to_tree(&list);
    proof {
        if toks_buildable(list@) {
            assert forall|j: int| 0 <= j < list@.len() implies (#[trigger] list@[j]).is_token() by {
                assert(token_ok(list@[j]));
            }
        }
    }
    r
}

} // verus!
