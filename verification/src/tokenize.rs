//! Tokenizer: scans an expression string left to right into atomic lexical
//! units. A maximal run of digits and decimal points becomes a real
//! constant; otherwise candidate substrings of growing length are matched
//! exactly against the keyword tables partitioned by length (1 to 4
//! characters). A candidate of five characters matching nothing is an
//! unrecognized-token error; a malformed numeric run is a literal error.

use vstd::prelude::*;
use vstd::string::StringSliceAdditionalSpecFns;
use crate::func::Func;
use crate::node::Node;
use crate::rat::{Rat, canon, lemma_canon_small};

verus! {

/// Failures of the parsing pipeline. Every failure is final and carries
/// the offending input fragment.
#[derive(Debug)]
pub enum ParseError {
    /// A scanned numeric run is not a real literal the scalar type holds.
    MalformedLiteral { text: Vec<u8> },
    /// A candidate substring matches no keyword table.
    UnrecognizedToken { text: Vec<u8>, len: usize },
    /// The postfix sequence is empty or an operator lacks operands.
    MalformedPostfix,
}

pub open spec fn is_digit_byte(b: u8) -> bool {
    48 <= b <= 57
}

pub open spec fn is_num_byte(b: u8) -> bool {
    is_digit_byte(b) || b == 46
}

/// Length of the maximal run of digit/point bytes starting at `i`.
pub open spec fn num_scan_len(s: Seq<u8>, i: int) -> int
    decreases s.len() - i,
{
    if 0 <= i < s.len() && is_num_byte(s[i]) {
        1 + num_scan_len(s, i + 1)
    } else {
        0
    }
}

pub proof fn lemma_num_scan_le(s: Seq<u8>, i: int)
    requires
        0 <= i <= s.len(),
    ensures
        0 <= num_scan_len(s, i) <= s.len() - i,
    decreases s.len() - i,
{
    if i < s.len() && is_num_byte(s[i]) {
        lemma_num_scan_le(s, i + 1);
    }
}

/// Exact keyword match at `i` for a candidate of the given length.
pub open spec fn keyword_at(s: Seq<u8>, i: int, len: int) -> Option<Func> {
    if len == 1 {
        if s[i] == 43 {
            Option::Some(Func::Add)
        } else if s[i] == 45 {
            Option::Some(Func::Sub)
        } else if s[i] == 42 {
            Option::Some(Func::Mul)
        } else if s[i] == 47 {
            Option::Some(Func::Div)
        } else if s[i] == 94 {
            Option::Some(Func::Pow)
        } else if s[i] == 120 {
            Option::Some(Func::X)
        } else if s[i] == 40 {
            Option::Some(Func::Ob)
        } else if s[i] == 41 {
            Option::Some(Func::Cb)
        } else {
            Option::None
        }
    } else if len == 2 {
        if s[i] == 108 && s[i + 1] == 110 {
            Option::Some(Func::Ln)
        } else if s[i] == 101 && s[i + 1] == 94 {
            Option::Some(Func::Exp)
        } else if s[i] == 116 && s[i + 1] == 103 {
            Option::Some(Func::Tg)
        } else {
            Option::None
        }
    } else if len == 3 {
        if s[i] == 115 && s[i + 1] == 105 && s[i + 2] == 110 {
            Option::Some(Func::Sin)
        } else if s[i] == 99 && s[i + 1] == 111 && s[i + 2] == 115 {
            Option::Some(Func::Cos)
        } else if s[i] == 99 && s[i + 1] == 116 && s[i + 2] == 103 {
            Option::Some(Func::Ctg)
        } else if s[i] == 97 && s[i + 1] == 116 && s[i + 2] == 103 {
            Option::Some(Func::Atg)
        } else {
            Option::None
        }
    } else if len == 4 {
        if s[i] == 115 && s[i + 1] == 113 && s[i + 2] == 114 && s[i + 3] == 116 {
            Option::Some(Func::Sqrt)
        } else if s[i] == 97 && s[i + 1] == 115 && s[i + 2] == 105 && s[i + 3] == 110 {
            Option::Some(Func::Asin)
        } else if s[i] == 97 && s[i + 1] == 99 && s[i + 2] == 111 && s[i + 3] == 115 {
            Option::Some(Func::Acos)
        } else if s[i] == 97 && s[i + 1] == 99 && s[i + 2] == 116 && s[i + 3] == 103 {
            Option::Some(Func::Actg)
        } else {
            Option::None
        }
    } else {
        Option::None
    }
}

/// Fold of a numeric run into integer numerator and power-of-ten
/// denominator, mirroring the scan: one decimal point at most, and an
/// accumulator guard that rejects literals past the scalar range.
pub open spec fn lit_fold(s: Seq<u8>, i: int, acc: int, den: int, seen: bool, digs: int) -> Option<
    (int, int, int),
>
    decreases s.len() - i,
{
    if i < 0 || i >= s.len() {
        Option::Some((acc, den, digs))
    } else if s[i] == 46 {
        if seen {
            Option::None
        } else {
            lit_fold(s, i + 1, acc, den, true, digs)
        }
    } else if is_digit_byte(s[i]) {
        if acc > (i64::MAX - 9) / 10 {
            Option::None
        } else {
            if seen {
                if den > i64::MAX / 10 {
                    Option::None
                } else {
                    lit_fold(s, i + 1, acc * 10 + (s[i] - 48), den * 10, seen, digs + 1)
                }
            } else {
                lit_fold(s, i + 1, acc * 10 + (s[i] - 48), den, seen, digs + 1)
            }
        }
    } else {
        Option::None
    }
}

/// The scalar a numeric run denotes: its canonical fraction, or nothing
/// when the run is malformed or out of range.
pub open spec fn lit_parse(s: Seq<u8>) -> Option<Rat> {
    match lit_fold(s, 0, 0, 1, false, 0) {
        Option::None => Option::None,
        Option::Some((n, d, digs)) => {
            if digs >= 1 {
                Option::Some(
                    Rat { num: canon(n, d).n as i64, den: canon(n, d).d as i64 },
                )
            } else {
                Option::None
            }
        },
    }
}

/// A childless node carrying the given tag and constant.
pub open spec fn token_node(fun: Func, c: Option<Rat>) -> Node {
    Node { first: Option::None, second: Option::None, op: fun, c: c }
}

/// Whether a node is a bare token with a well-formed constant where the tag
/// asks for one.
pub open spec fn token_ok(n: Node) -> bool {
    &&& n.is_token()
    &&& (n.op == Func::Const <==> n.c is Some)
    &&& (match n.c {
        Option::Some(r) => r.wf(),
        Option::None => true,
    })
}

/// Spec-level record of a scan failure: whether a numeric run was
/// malformed (else a candidate was unrecognized), and the failing span.
pub ghost struct ScanFault {
    pub literal: bool,
    pub at: int,
    pub len: int,
}

/// The whole scan: at each position, a nonempty numeric run becomes a
/// constant; otherwise candidates of length 1, 2, 3, 4 are tried against
/// the keyword tables, and a fifth character without a match is fatal. A
/// trailing candidate that runs past the end of the input ends the scan.
/// A failure names the offending span.
pub open spec fn tok_spec(s: Seq<u8>, i: int, buffer: int) -> Result<Seq<Node>, ScanFault>
    decreases s.len() - i, s.len() + 1 - i - buffer,
    via tok_spec_dec
{
    if i < 0 || buffer < 1 || i + buffer > s.len() {
        Result::Ok(Seq::empty())
    } else {
        let nl = num_scan_len(s, i);
        if nl > 0 {
            match lit_parse(s.subrange(i, i + nl)) {
                Option::None => Result::Err(ScanFault { literal: true, at: i, len: nl }),
                Option::Some(c) => match tok_spec(s, i + nl, 1) {
                    Result::Err(f) => Result::Err(f),
                    Result::Ok(rest) => Result::Ok(
                        seq![token_node(Func::Const, Option::Some(c))] + rest,
                    ),
                },
            }
        } else {
            if buffer > 4 {
                Result::Err(ScanFault { literal: false, at: i, len: buffer })
            } else {
                match keyword_at(s, i, buffer) {
                    Option::Some(f) => match tok_spec(s, i + buffer, 1) {
                        Result::Err(e) => Result::Err(e),
                        Result::Ok(rest) => Result::Ok(seq![token_node(f, Option::None)] + rest),
                    },
                    Option::None => tok_spec(s, i, buffer + 1),
                }
            }
        }
    }
}

#[via_fn]
proof fn tok_spec_dec(s: Seq<u8>, i: int, buffer: int) {
    if !(i < 0 || buffer < 1 || i + buffer > s.len()) {
        lemma_num_scan_le(s, i);
    }
}

/// Keyword lookup for a candidate of length 1 to 4.
fn try_parsing(bytes: &Vec<u8>, i: usize, len: usize) -> (r: Option<Node>)
    requires
        1 <= len <= 4,
        i + len <= bytes.len(),
    ensures
        r matches Some(nd) ==> keyword_at(bytes@, i as int, len as int) == Option::Some(nd.op)
            && nd.is_token() && nd.c is None,
        r is Some <==> keyword_at(bytes@, i as int, len as int) is Some,
{
    if len == 1 {
        let b = bytes[i];
        if b == 43 {
            Option::Some(Node::new_value(Func::Add, Option::None))
        } else if b == 45 {
            Option::Some(Node::new_value(Func::Sub, Option::None))
        } else if b == 42 {
            Option::Some(Node::new_value(Func::Mul, Option::None))
        } else if b == 47 {
            Option::Some(Node::new_value(Func::Div, Option::None))
        } else if b == 94 {
            Option::Some(Node::new_value(Func::Pow, Option::None))
        } else if b == 120 {
            Option::Some(Node::new_value(Func::X, Option::None))
        } else if b == 40 {
            Option::Some(Node::new_value(Func::Ob, Option::None))
        } else if b == 41 {
            Option::Some(Node::new_value(Func::Cb, Option::None))
        } else {
            Option::None
        }
    } else if len == 2 {
        let a = bytes[i];
        let b = bytes[i + 1];
        if a == 108 && b == 110 {
            Option::Some(Node::new_value(Func::Ln, Option::None))
        } else if a == 101 && b == 94 {
            Option::Some(Node::new_value(Func::Exp, Option::None))
        } else if a == 116 && b == 103 {
            Option::Some(Node::new_value(Func::Tg, Option::None))
        } else {
            Option::None
        }
    } else if len == 3 {
        let a = bytes[i];
        let b = bytes[i + 1];
        let c = bytes[i + 2];
        if a == 115 && b == 105 && c == 110 {
            Option::Some(Node::new_value(Func::Sin, Option::None))
        } else if a == 99 && b == 111 && c == 115 {
            Option::Some(Node::new_value(Func::Cos, Option::None))
        } else if a == 99 && b == 116 && c == 103 {
            Option::Some(Node::new_value(Func::Ctg, Option::None))
        } else if a == 97 && b == 116 && c == 103 {
            Option::Some(Node::new_value(Func::Atg, Option::None))
        } else {
            Option::None
        }
    } else {
        let a = bytes[i];
        let b = bytes[i + 1];
        let c = bytes[i + 2];
        let d = bytes[i + 3];
        if a == 115 && b == 113 && c == 114 && d == 116 {
            Option::Some(Node::new_value(Func::Sqrt, Option::None))
        } else if a == 97 && b == 115 && c == 105 && d == 110 {
            Option::Some(Node::new_value(Func::Asin, Option::None))
        } else if a == 97 && b == 99 && c == 111 && d == 115 {
            Option::Some(Node::new_value(Func::Acos, Option::None))
        } else if a == 97 && b == 99 && c == 116 && d == 103 {
            Option::Some(Node::new_value(Func::Actg, Option::None))
        } else {
            Option::None
        }
    }
}

/// Parse a numeric run into a scalar, exactly as `lit_parse` says.
#[verifier::loop_isolation(false)]
fn parse_literal(bytes: &Vec<u8>, start: usize, len: usize) -> (r: Option<Rat>)
    requires
        start + len <= bytes.len(),
    ensures
        r == lit_parse(bytes@.subrange(start as int, start as int + len as int)),
        r matches Some(c) ==> c.wf(),
{
    let ghost sub = bytes@.subrange(start as int, start as int + len as int);
    let mut acc: i64 = 0;
    let mut den: i64 = 1;
    let mut seen = false;
    let mut digs: usize = 0;
    let mut i: usize = 0;
    while i < len
        invariant
            i <= len,
            0 <= acc,
            1 <= den,
            digs <= i,
            lit_fold(sub, 0, 0, 1, false, 0) == lit_fold(
                sub,
                i as int,
                acc as int,
                den as int,
                seen,
                digs as int,
            ),
        decreases len - i,
    {
        let b = bytes[start + i];
        proof {
            assert(sub[i as int] == b);
        }
        if b == 46 {
            if seen {
                return Option::None;
            }
            seen = true;
        } else if 48 <= b && b <= 57 {
            if acc > (i64::MAX - 9) / 10 {
                return Option::None;
            }
            proof {
                assert(((i64::MAX - 9) / 10) * 10 + 9 <= i64::MAX) by (nonlinear_arith)
                {
                }
                assert(acc * 10 <= ((i64::MAX - 9) / 10) * 10) by (nonlinear_arith)
                    requires
                        0 <= acc <= (i64::MAX - 9) / 10,
                {
                }
            }
            if seen {
                if den > i64::MAX / 10 {
                    return Option::None;
                }
                proof {
                    assert(den * 10 <= (i64::MAX / 10) * 10 && (i64::MAX / 10) * 10 <= i64::MAX)
                        by (nonlinear_arith)
                        requires
                            1 <= den <= i64::MAX / 10,
                    {
                    }
                }
                den = den * 10;
            }
            acc = acc * 10 + ((b - 48) as i64);
            digs = digs + 1;
        } else {
            return Option::None;
        }
        i = i + 1;
    }
    if digs == 0 {
        return Option::None;
    }
    proof {
        lemma_canon_small(acc as int, den as int);
    }
    let r = Rat::normalize(acc as i128, den as i128);
    proof {
        assert(r matches Option::Some(c) && c.frac() == canon(acc as int, den as int));
    }
    r
}

/// Count the numeric run starting at `i`.
#[verifier::loop_isolation(false)]
fn scan_num(bytes: &Vec<u8>, i: usize) -> (l: usize)
    requires
        i <= bytes.len(),
    ensures
        l as int == num_scan_len(bytes@, i as int),
        i + l <= bytes.len(),
{
    let mut t: usize = i;
    while t < bytes.len() && (bytes[t] == 46 || (48 <= bytes[t] && bytes[t] <= 57))
        invariant
            i <= t <= bytes.len(),
            num_scan_len(bytes@, i as int) == (t - i) + num_scan_len(bytes@, t as int),
        decreases bytes.len() - t,
    {
        t = t + 1;
    }
    t - i
}

/// Scan the expression string into its token list; see `tok_spec` for the
/// exact result. The input is read byte for byte, so the vocabulary of
/// one-character symbols, keywords and numeric runs is ASCII.
#[verifier::loop_isolation(false)]
pub fn string_to_vec_of_node(function: &str) -> (r: Result<Vec<Node>, ParseError>)
    ensures
        r matches Ok(v) ==> tok_spec(function.spec_bytes(), 0, 1) == Result::<
            Seq<Node>,
            ScanFault,
        >::Ok(v@),
        r is Ok <==> tok_spec(function.spec_bytes(), 0, 1) is Ok,
        r matches Ok(v) ==> forall|j: int| 0 <= j < v@.len() ==> token_ok(#[trigger] v@[j]),
        r matches Err(e) ==> (e matches ParseError::MalformedLiteral { text } ==> ({
            let sb = function.spec_bytes();
            &&& tok_spec(sb, 0, 1) matches Result::Err(f)
            &&& tok_spec(sb, 0, 1)->Err_0.literal
            &&& text@ == sb.subrange(
                tok_spec(sb, 0, 1)->Err_0.at,
                tok_spec(sb, 0, 1)->Err_0.at + tok_spec(sb, 0, 1)->Err_0.len,
            )
        })),
        r matches Err(e) ==> (e matches ParseError::UnrecognizedToken { text, len } ==> ({
            let sb = function.spec_bytes();
            &&& tok_spec(sb, 0, 1) matches Result::Err(f)
            &&& !tok_spec(sb, 0, 1)->Err_0.literal
            &&& text@ == sb.subrange(
                tok_spec(sb, 0, 1)->Err_0.at,
                tok_spec(sb, 0, 1)->Err_0.at + tok_spec(sb, 0, 1)->Err_0.len,
            )
            &&& len as int == tok_spec(sb, 0, 1)->Err_0.len
        })),
        r matches Err(e) ==> (e matches ParseError::MalformedLiteral { .. } || e matches
            ParseError::UnrecognizedToken { .. }),
{
    let byte_slice: &[u8] = function.as_bytes();
    let bytes: Vec<u8> = vstd::slice::slice_to_vec(byte_slice);
    let ghost s = function.spec_bytes();
    proof {
        assert(bytes@ == s);
    }
    let mut out: Vec<Node> = Vec::new();
    let mut i: usize = 0;
    let mut buffer: usize = 1;
    while i <= bytes.len() && buffer <= bytes.len() - i
        invariant
            bytes@ == s,
            buffer >= 1,
            i <= bytes.len(),
            forall|j: int| 0 <= j < out@.len() ==> token_ok(#[trigger] out@[j]),
            tok_spec(s, i as int, buffer as int) is Err ==> tok_spec(s, 0, 1) == tok_spec(
                s,
                i as int,
                buffer as int,
            ),
            tok_spec(s, i as int, buffer as int) matches Result::Ok(rest) ==> tok_spec(s, 0, 1)
                == Result::<Seq<Node>, ScanFault>::Ok(out@ + rest),
        decreases bytes.len() - i, bytes.len() + 1 - i - buffer,
    {
        let nl = scan_num(&bytes, i);
        if nl > 0 {
            match parse_literal(&bytes, i, nl) {
                Option::Some(c) => {
                    proof {
                        assert(lit_parse(s.subrange(i as int, i as int + nl as int))
                            == Option::Some(c));
                    }
                    let nd = Node::new_value(Func::Const, Option::Some(c));
                    proof {
                        assert(nd == token_node(Func::Const, Option::Some(c)));
                    }
                    let ghost out0 = out@;
                    out.push(nd);
                    proof {
                        if tok_spec(s, (i + nl) as int, 1) is Ok {
                            let rest = tok_spec(s, (i + nl) as int, 1)->Ok_0;
                            let rest0 = seq![token_node(Func::Const, Option::Some(c))] + rest;
                            assert(tok_spec(s, i as int, buffer as int) == Result::<
                                Seq<Node>,
                                ScanFault,
                            >::Ok(rest0));
                            assert(tok_spec(s, 0, 1) == Result::<Seq<Node>, ScanFault>::Ok(
                                out0 + rest0,
                            ));
                            assert(out@ + rest =~= out0 + rest0);
                        } else {
                            assert(tok_spec(s, i as int, buffer as int) == tok_spec(
                                s,
                                (i + nl) as int,
                                1,
                            ));
                        }
                    }
                    i = i + nl;
                    buffer = 1;
                },
                Option::None => {
                    proof {
                        assert(tok_spec(s, i as int, buffer as int) == Result::<
                            Seq<Node>,
                            ScanFault,
                        >::Err(ScanFault { literal: true, at: i as int, len: nl as int }));
                    }
                    let mut text: Vec<u8> = Vec::new();
                    let mut t: usize = 0;
                    while t < nl
                        invariant
                            t <= nl,
                            i + nl <= bytes.len(),
                            bytes@ == s,
                            text@.len() == t,
                            forall|u: int| 0 <= u < t ==> text@[u] == s[i + u],
                        decreases nl - t,
                    {
                        text.push(bytes[i + t]);
                        t = t + 1;
                    }
                    proof {
                        assert(text@ =~= s.subrange(i as int, i as int + nl as int));
                    }
                    return Err(ParseError::MalformedLiteral { text });
                },
            }
        } else {
            if buffer > 4 {
                proof {
                    assert(tok_spec(s, i as int, buffer as int) == Result::<
                        Seq<Node>,
                        ScanFault,
                    >::Err(ScanFault { literal: false, at: i as int, len: buffer as int }));
                }
                let mut text: Vec<u8> = Vec::new();
                let mut t: usize = 0;
                while t < buffer
                    invariant
                        t <= buffer,
                        i + buffer <= bytes.len(),
                        bytes@ == s,
                        text@.len() == t,
                        forall|u: int| 0 <= u < t ==> text@[u] == s[i + u],
                    decreases buffer - t,
                {
                    text.push(bytes[i + t]);
                    t = t + 1;
                }
                proof {
                    assert(text@ =~= s.subrange(i as int, i as int + buffer as int));
                }
                return Err(ParseError::UnrecognizedToken { text, len: buffer });
            }
            match try_parsing(&bytes, i, buffer) {
                Option::Some(nd) => {
                    proof {
                        assert(nd == token_node(nd.op, Option::None));
                    }
                    let ghost out0 = out@;
                    out.push(nd);
                    proof {
                        if tok_spec(s, (i + buffer) as int, 1) is Ok {
                            let rest = tok_spec(s, (i + buffer) as int, 1)->Ok_0;
                            let rest0 = seq![token_node(nd.op, Option::None)] + rest;
                            assert(tok_spec(s, i as int, buffer as int) == Result::<
                                Seq<Node>,
                                ScanFault,
                            >::Ok(rest0));
                            assert(tok_spec(s, 0, 1) == Result::<Seq<Node>, ScanFault>::Ok(
                                out0 + rest0,
                            ));
                            assert(out@ + rest =~= out0 + rest0);
                        } else {
                            assert(tok_spec(s, i as int, buffer as int) == tok_spec(
                                s,
                                (i + buffer) as int,
                                1,
                            ));
                        }
                    }
                    i = i + buffer;
                    buffer = 1;
                },
                Option::None => {
                    proof {
                        assert(tok_spec(s, i as int, buffer as int) == tok_spec(
                            s,
                            i as int,
                            buffer as int + 1,
                        ));
                    }
                    buffer = buffer + 1;
                },
            }
        }
    }
    proof {
        assert(tok_spec(s, i as int, buffer as int) == Result::<Seq<Node>, ScanFault>::Ok(
            Seq::<Node>::empty(),
        ));
        assert(out@ + Seq::<Node>::empty() =~= out@);
    }
    Ok(out)
}

} // verus!
