//! Splitter over a raw expression string: cuts it at every top-level
//! occurrence of two given operator characters, skipping bracketed spans,
//! and reports which of the two operators stood at each cut.

use vstd::prelude::*;
use vstd::string::StrSliceExecFns;
use crate::func::Func;

verus! {

/// The whole scan, one character per recursive step. `depth` tracks
/// bracket nesting; a cut at a top-level operator pushes the span since
/// the character after the previous cut (`second`, or `first` before any
/// cut), and the trailing span (or, with no cut past position zero, the
/// whole string) closes the scan. `true` in the flag sequence marks the
/// first operator character.
pub open spec fn split_spec(
    s: Seq<char>,
    o1: char,
    o2: char,
    i: int,
    depth: int,
    first: int,
    second: int,
    chunks: Seq<Seq<char>>,
    flags: Seq<bool>,
) -> (Seq<Seq<char>>, Seq<bool>)
    decreases s.len() - i,
{
    if i < 0 || i >= s.len() {
        if second == 0 {
            (chunks.push(s), flags)
        } else {
            (chunks.push(s.subrange(second + 1, s.len() as int)), flags)
        }
    } else {
        let c = s[i];
        if depth != 0 {
            let d2 = if c == '(' {
                depth + 1
            } else if c == ')' {
                depth - 1
            } else {
                depth
            };
            split_spec(s, o1, o2, i + 1, d2, first, second, chunks, flags)
        } else if c == '(' {
            split_spec(s, o1, o2, i + 1, 1, first, second, chunks, flags)
        } else if c == o1 || c == o2 {
            let f2 = if second != 0 {
                second
            } else {
                first
            };
            split_spec(
                s,
                o1,
                o2,
                i + 1,
                0,
                f2,
                i,
                chunks.push(s.subrange(f2 + 1, i)),
                flags.push(c == o1),
            )
        } else {
            split_spec(s, o1, o2, i + 1, depth, first, second, chunks, flags)
        }
    }
}

/// Split the string at its top-level occurrences of `op1` and `op2`; the
/// chunks and the operator tags between them follow `split_spec` exactly.
#[verifier::loop_isolation(false)]
pub fn split_by_ops(function: &String, op1: char, op2: char, mk1: Func, mk2: Func) -> (r: (
    Vec<String>,
    Vec<Func>,
))
    requires
        function.is_ascii(),
    ensures
        ({
            let res = split_spec(function@, op1, op2, 0, 0, -1, 0, Seq::empty(), Seq::empty());
            &&& r.0@.map_values(|t: String| t@) == res.0
            &&& r.1@.len() == res.1.len()
            &&& forall|j: int|
                0 <= j < res.1.len() ==> r.1@[j] == (if res.1[j] {
                    mk1
                } else {
                    mk2
                })
        }),
{
    let ghost s = function@;
    let mut tier_chunks: Vec<String> = Vec::new();
    let mut tier_ops: Vec<Func> = Vec::new();
    let ghost mut flags: Seq<bool> = Seq::empty();
    let mut depth: usize = 0;
    let mut first: i128 = -1;
    let mut second: usize = 0;
    let fs = function.as_str();
    let n = fs.unicode_len();
    let mut i: usize = 0;
    proof {
        assert(tier_chunks@.map_values(|t: String| t@) =~= Seq::<Seq<char>>::empty());
    }
    while i < n
        invariant
            fs@ == s,
            fs.is_ascii(),
            n == s.len(),
            i <= n,
            depth <= i,
            -1 <= first < i as int,
            second < n || second == 0,
            second == 0 || second < i,
            second <= i,
            first < second || second == 0,
            flags.len() == tier_ops@.len(),
            forall|j: int|
                0 <= j < flags.len() ==> tier_ops@[j] == (if flags[j] {
                    mk1
                } else {
                    mk2
                }),
            split_spec(s, op1, op2, 0, 0, -1, 0, Seq::empty(), Seq::empty()) == split_spec(
                s,
                op1,
                op2,
                i as int,
                depth as int,
                first as int,
                second as int,
                tier_chunks@.map_values(|t: String| t@),
                flags,
            ),
        decreases n - i,
    {
        let c = fs.get_char(i);
        if depth != 0 {
            if c == '(' {
                depth = depth + 1;
            } else if c == ')' {
                depth = depth - 1;
            }
        } else if c == '(' {
            depth = 1;
        } else if c == op1 || c == op2 {
            if c == op1 {
                tier_ops.push(mk1);
            } else {
                tier_ops.push(mk2);
            }
            proof {
                flags = flags.push(c == op1);
            }
            if second != 0 {
                first = second as i128;
            }
            second = i;
            proof {
                assert(0 <= first + 1 <= i as int);
            }
            let start = (first + 1) as usize;
            let ghost before = tier_chunks@.map_values(|t: String| t@);
            let chunk = fs.substring_ascii(start, i).to_owned();
            proof {
                assert(chunk@ == s.subrange(first as int + 1, i as int));
            }
            tier_chunks.push(chunk);
            proof {
                assert(tier_chunks@.map_values(|t: String| t@) =~= before.push(chunk@));
            }
        }
        i = i + 1;
    }
    let ghost before = tier_chunks@.map_values(|t: String| t@);
    if second == 0 {
        let whole = function.clone();
        proof {
            assert(whole@ == s);
        }
        tier_chunks.push(whole);
        proof {
            assert(tier_chunks@.map_values(|t: String| t@) =~= before.push(s));
        }
    } else {
        let tail = fs.substring_ascii(second + 1, n).to_owned();
        proof {
            assert(tail@ == s.subrange(second as int + 1, s.len() as int));
        }
        tier_chunks.push(tail);
        proof {
            assert(tier_chunks@.map_values(|t: String| t@) =~= before.push(
                s.subrange(second as int + 1, s.len() as int),
            ));
        }
    }
    proof {
        assert(tier_chunks@.map_values(|t: String| t@) == split_spec(
            s,
            op1,
            op2,
            0,
            0,
            -1,
            0,
            Seq::empty(),
            Seq::empty(),
        ).0);
    }
    (tier_chunks, tier_ops)
}

} // verus!
