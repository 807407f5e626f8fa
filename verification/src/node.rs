//! Expression-tree nodes. A node owns up to two children exclusively:
//! unary-function nodes populate only the first child, binary-operator
//! nodes populate both, and leaves (the variable, a constant) populate
//! neither.

use vstd::prelude::*;
use crate::func::Func;
use crate::rat::Rat;

verus! {

/// A token or expression-tree node: a tag, an optional constant value, and
/// up to two exclusively owned children.
#[derive(Debug)]
pub struct Node {
    pub first: Option<Box<Node>>,
    pub second: Option<Box<Node>>,
    pub op: Func,
    pub c: Option<Rat>,
}

impl Node {
    /// A bare token: no children attached yet.
    pub open spec fn is_token(self) -> bool {
        self.first is None && self.second is None
    }

    /// The tree invariant: unary tags have exactly the first child, binary
    /// tags have both, leaves are the variable or a well-formed constant.
    pub open spec fn ast_wf(self) -> bool
        decreases self,
    {
        if self.op.spec_is_unary() {
            &&& self.second is None
            &&& match self.first {
                Option::Some(f) => f.ast_wf(),
                Option::None => false,
            }
        } else if self.op.spec_is_binary() {
            &&& match self.first {
                Option::Some(f) => f.ast_wf(),
                Option::None => false,
            }
            &&& match self.second {
                Option::Some(s) => s.ast_wf(),
                Option::None => false,
            }
        } else {
            &&& self.op == Func::X || self.op == Func::Const
            &&& self.first is None
            &&& self.second is None
            &&& (self.op == Func::Const ==> match self.c {
                Option::Some(r) => r.wf(),
                Option::None => false,
            })
        }
    }

    /// An empty node, not yet given a meaning.
    pub fn new() -> (r: Node)
        ensures
            r.first is None,
            r.second is None,
            r.op == Func::Nil,
            r.c is None,
    {
        Node { first: Option::None, second: Option::None, op: Func::Nil, c: Option::None }
    }

    /// A childless node carrying a tag and an optional constant.
    pub fn new_value(fun: Func, con: Option<Rat>) -> (r: Node)
        ensures
            r.first is None,
            r.second is None,
            r.op == fun,
            r.c == con,
    {
        Node { first: Option::None, second: Option::None, op: fun, c: con }
    }

    /// Deep copy of the whole subtree.
    pub fn return_copy(&self) -> (r: Node)
        ensures
            r == *self,
        decreases *self,
    {
        Node {
            first: match &self.first {
                Option::Some(b) => Option::Some(Box::new(b.return_copy())),
                Option::None => Option::None,
            },
            second: match &self.second {
                Option::Some(b) => Option::Some(Box::new(b.return_copy())),
                Option::None => Option::None,
            },
            op: self.op,
            c: self.c,
        }
    }
}

/// Code generated by subsequent branches of the intermediate-representation
/// backend, together with the address its result lives at.
pub struct Subseq {
    code: String,
    raddr: i16,
}

impl Subseq {
    pub closed spec fn spec_code(self) -> Seq<char> {
        self.code@
    }

    pub closed spec fn spec_raddr(self) -> int {
        self.raddr as int
    }

    pub fn new(code: String, raddr: i16) -> (r: Subseq)
        ensures
            r.spec_code() == code@,
            r.spec_raddr() == raddr as int,
    {
        Subseq { code, raddr }
    }

    pub fn return_code(self) -> (r: String)
        ensures
            r@ == self.spec_code(),
    {
        self.code
    }
}

} // verus!
