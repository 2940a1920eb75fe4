//! Batch input formats: a DIMACS-style max-flow format and a dense-matrix
//! text format, parsed from raw bytes into a source, a sink and an edge
//! list.  Any malformed line, count mismatch or out-of-range vertex makes
//! the whole parse fail; no partial result is returned.

use vstd::prelude::*;

use crate::flow::contains_pair;
use crate::flow::create_residual_edges;
use crate::flow::dests_of;
use crate::flow::distinct_pairs;
use crate::flow::edge_value;
use crate::flow::lemma_absent_when_no_pair;
use crate::flow::residuals_of;
use crate::flow::FlowEdge;
use crate::flow::Graph;
use crate::flow::Property;
use crate::flow::VertexId;
use crate::maxflow::cap_at;
use crate::maxflow::cap_total;
use crate::maxflow::conserved;
use crate::maxflow::flow_at;
use crate::maxflow::flow_row;
use crate::maxflow::flow_wf;
use crate::maxflow::inflow_nonpos;
use crate::maxflow::nb_has;
use crate::maxflow::out_flow_of;
use crate::sums::lemma_sum_zero;

verus! {

/// Horizontal whitespace inside one line: space, tab, or the carriage
/// return left by CRLF line ends.
pub open spec fn is_ws(c: u8) -> bool {
    c == 32 || c == 9 || c == 13
}

/// An ASCII decimal digit.
pub open spec fn is_digit(c: u8) -> bool {
    48 <= c <= 57
}

/// The position of the first line-feed byte of `s`, or its length.
pub open spec fn first_nl(s: Seq<u8>) -> int
    decreases s.len(),
{
    if s.len() == 0 {
        0
    } else if s[0] == 10 {
        0
    } else {
        1 + first_nl(s.subrange(1, s.len() as int))
    }
}

/// `first_nl` points at a line feed or at the end, and nothing before it
/// is a line feed.
pub proof fn lemma_first_nl(s: Seq<u8>)
    ensures
        0 <= first_nl(s) <= s.len(),
        first_nl(s) < s.len() ==> s[first_nl(s)] == 10,
        forall|i: int| 0 <= i < first_nl(s) ==> s[i] != 10,
    decreases s.len(),
{
    if s.len() > 0 && s[0] != 10 {
        let t = s.subrange(1, s.len() as int);
        lemma_first_nl(t);
        assert(forall|i: int| 0 <= i < t.len() ==> t[i] == s[i + 1]);
        assert forall|i: int| 0 <= i < first_nl(s) implies s[i] != 10 by {
            if i > 0 {
                assert(t[i - 1] != 10);
            }
        }
    }
}

/// The lines of `s`, split on line feeds (a trailing line feed yields no
/// empty final line, as a line-by-line reader produces them).
pub open spec fn split_lines(s: Seq<u8>) -> Seq<Seq<u8>>
    decreases s.len()
        via split_lines_dec
{
    if s.len() == 0 {
        Seq::empty()
    } else {
        let k = first_nl(s);
        if k >= s.len() {
            seq![s]
        } else {
            seq![s.subrange(0, k)] + split_lines(s.subrange(k + 1, s.len() as int))
        }
    }
}

#[via_fn]
proof fn split_lines_dec(s: Seq<u8>) {
    lemma_first_nl(s);
}

/// There are never more lines than bytes, plus one.
pub proof fn lemma_split_lines_count(s: Seq<u8>)
    ensures
        split_lines(s).len() <= s.len() + 1,
    decreases s.len(),
{
    if s.len() > 0 {
        lemma_first_nl(s);
        let k = first_nl(s);
        if k < s.len() {
            lemma_split_lines_count(s.subrange(k + 1, s.len() as int));
        }
    }
}

/// The length of the leading whitespace-free run of `s`.
pub open spec fn token_run(s: Seq<u8>) -> int
    decreases s.len(),
{
    if s.len() == 0 {
        0
    } else if is_ws(s[0]) {
        0
    } else {
        1 + token_run(s.subrange(1, s.len() as int))
    }
}

/// `token_run` stops at whitespace or at the end and spans no whitespace.
pub proof fn lemma_token_run(s: Seq<u8>)
    ensures
        0 <= token_run(s) <= s.len(),
        token_run(s) < s.len() ==> is_ws(s[token_run(s)]),
        forall|i: int| 0 <= i < token_run(s) ==> !is_ws(s[i]),
        s.len() > 0 && !is_ws(s[0]) ==> token_run(s) >= 1,
    decreases s.len(),
{
    if s.len() > 0 && !is_ws(s[0]) {
        let t = s.subrange(1, s.len() as int);
        lemma_token_run(t);
        assert(forall|i: int| 0 <= i < t.len() ==> t[i] == s[i + 1]);
        assert forall|i: int| 0 <= i < token_run(s) implies !is_ws(s[i]) by {
            if i > 0 {
                assert(!is_ws(t[i - 1]));
            }
        }
    }
}

/// The whitespace-separated tokens of one line, in order.
pub open spec fn tokens_of(s: Seq<u8>) -> Seq<Seq<u8>>
    decreases s.len()
        via tokens_of_dec
{
    if s.len() == 0 {
        Seq::empty()
    } else if is_ws(s[0]) {
        tokens_of(s.subrange(1, s.len() as int))
    } else {
        let k = token_run(s);
        seq![s.subrange(0, k)] + tokens_of(s.subrange(k, s.len() as int))
    }
}

#[via_fn]
proof fn tokens_of_dec(s: Seq<u8>) {
    lemma_token_run(s);
}

/// Every byte of `t` is a decimal digit and there is at least one.
pub open spec fn all_digits(t: Seq<u8>) -> bool {
    t.len() > 0 && forall|i: int| 0 <= i < t.len() ==> is_digit(#[trigger] t[i])
}

/// The decimal value of a digit string.
pub open spec fn digits_val(t: Seq<u8>) -> int
    decreases t.len(),
{
    if t.len() == 0 {
        0
    } else {
        digits_val(t.drop_last()) * 10 + (t.last() - 48)
    }
}

/// The digit part of an integer token: an optional single leading sign is
/// stripped.
pub open spec fn digits_part(t: Seq<u8>) -> Seq<u8> {
    if t.len() > 0 && (t[0] == 43 || t[0] == 45) {
        t.subrange(1, t.len() as int)
    } else {
        t
    }
}

/// `t` parses as an unsigned machine word: an optional `+`, then digits,
/// with a value that fits.
pub open spec fn is_usize_token(t: Seq<u8>) -> bool {
    &&& (t.len() == 0 || t[0] != 45)
    &&& all_digits(digits_part(t))
    &&& digits_val(digits_part(t)) <= usize::MAX
}

/// The value of an unsigned token.
pub open spec fn usize_token_val(t: Seq<u8>) -> int {
    digits_val(digits_part(t))
}

/// `t` parses as a 32-bit signed integer: an optional sign, then digits,
/// with a value that fits.
pub open spec fn is_i32_token(t: Seq<u8>) -> bool {
    &&& all_digits(digits_part(t))
    &&& i32::MIN <= i32_token_val(t) <= i32::MAX
}

/// The value of a signed token.
pub open spec fn i32_token_val(t: Seq<u8>) -> int {
    if t.len() > 0 && t[0] == 45 {
        -digits_val(digits_part(t))
    } else {
        digits_val(digits_part(t))
    }
}

/// Split raw bytes into lines (run-time form of `split_lines`).
pub fn split_lines_exec(data: &[u8]) -> (r: Vec<Vec<u8>>)
    ensures
        r@.map_values(|l: Vec<u8>| l@) == split_lines(data@),
{
    let mut lines: Vec<Vec<u8>> = Vec::new();
    let mut pos: usize = 0;
    proof {
        assert(data@.subrange(0, data@.len() as int) =~= data@);
    }
    while pos < data.len()
        invariant
            pos <= data@.len(),
            split_lines(data@) == lines@.map_values(|l: Vec<u8>| l@) + split_lines(
                data@.subrange(pos as int, data@.len() as int),
            ),
        decreases data@.len() - pos,
    {
        let ghost rest = data@.subrange(pos as int, data@.len() as int);
        let mut end: usize = pos;
        while end < data.len() && data[end] != 10
            invariant
                pos <= end <= data@.len(),
                forall|i: int| pos <= i < end ==> data@[i] != 10,
            decreases data@.len() - end,
        {
            end = end + 1;
        }
        proof {
            lemma_first_nl(rest);
            assert(forall|i: int| 0 <= i < rest.len() ==> rest[i] == data@[pos + i]);
            assert(first_nl(rest) == end - pos) by {
                if first_nl(rest) < end - pos {
                    assert(rest[first_nl(rest)] == 10);
                }
                if first_nl(rest) > end - pos {
                    assert(end < data@.len());
                    assert(rest[end - pos] == 10);
                }
            }
        }
        let mut line: Vec<u8> = Vec::new();
        let mut q: usize = pos;
        while q < end
            invariant
                pos <= q <= end <= data@.len(),
                line@.len() == q - pos,
                forall|i: int| 0 <= i < line@.len() ==> line@[i] == data@[pos + i],
            decreases end - q,
        {
            line.push(data[q]);
            q = q + 1;
        }
        proof {
            assert(line@ =~= rest.subrange(0, end - pos));
        }
        let ghost old_lines = lines@;
        lines.push(line);
        proof {
            assert(lines@.map_values(|l: Vec<u8>| l@) =~= old_lines.map_values(|l: Vec<u8>| l@)
                + seq![line@]);
            if end < data.len() {
                assert(split_lines(rest) == seq![rest.subrange(0, end - pos)] + split_lines(
                    rest.subrange(end - pos + 1, rest.len() as int),
                ));
                assert(rest.subrange(end - pos + 1, rest.len() as int) =~= data@.subrange(
                    end + 1 as int,
                    data@.len() as int,
                ));
                assert(lines@.map_values(|l: Vec<u8>| l@) + split_lines(
                    data@.subrange(end + 1 as int, data@.len() as int),
                ) =~= split_lines(data@));
            } else {
                assert(split_lines(rest) == seq![rest]);
                assert(rest =~= line@);
                assert(data@.subrange(data@.len() as int, data@.len() as int) =~= Seq::<
                    u8,
                >::empty());
                assert(lines@.map_values(|l: Vec<u8>| l@) + split_lines(
                    data@.subrange(data@.len() as int, data@.len() as int),
                ) =~= split_lines(data@));
            }
        }
        if end < data.len() {
            pos = end + 1;
        } else {
            pos = end;
        }
    }
    proof {
        assert(data@.subrange(pos as int, data@.len() as int) =~= Seq::<u8>::empty());
        assert(lines@.map_values(|l: Vec<u8>| l@) + split_lines(Seq::<u8>::empty())
            =~= lines@.map_values(|l: Vec<u8>| l@));
    }
    lines
}

/// Split one line into whitespace-separated tokens (run-time form of
/// `tokens_of`).
pub fn tokens_exec(line: &[u8]) -> (r: Vec<Vec<u8>>)
    ensures
        r@.map_values(|t: Vec<u8>| t@) == tokens_of(line@),
{
    let mut tokens: Vec<Vec<u8>> = Vec::new();
    let mut pos: usize = 0;
    proof {
        assert(line@.subrange(0, line@.len() as int) =~= line@);
    }
    while pos < line.len()
        invariant
            pos <= line@.len(),
            tokens_of(line@) == tokens@.map_values(|t: Vec<u8>| t@) + tokens_of(
                line@.subrange(pos as int, line@.len() as int),
            ),
        decreases line@.len() - pos,
    {
        let ghost rest = line@.subrange(pos as int, line@.len() as int);
        let c = line[pos];
        if c == 32 || c == 9 || c == 13 {
            proof {
                assert(rest[0] == c);
                assert(tokens_of(rest) == tokens_of(
                    rest.subrange(1, rest.len() as int),
                ));
                assert(rest.subrange(1, rest.len() as int) =~= line@.subrange(
                    pos + 1 as int,
                    line@.len() as int,
                ));
            }
            pos = pos + 1;
        } else {
            let mut end: usize = pos;
            while end < line.len() && line[end] != 32 && line[end] != 9 && line[end] != 13
                invariant
                    pos <= end <= line@.len(),
                    forall|i: int| pos <= i < end ==> !is_ws(line@[i]),
                decreases line@.len() - end,
            {
                end = end + 1;
            }
            proof {
                lemma_token_run(rest);
                assert(forall|i: int| 0 <= i < rest.len() ==> rest[i] == line@[pos + i]);
                assert(token_run(rest) == end - pos) by {
                    if token_run(rest) < end - pos {
                        assert(is_ws(rest[token_run(rest)]));
                    }
                    if token_run(rest) > end - pos {
                        assert(end < line@.len());
                        assert(!is_ws(rest[end - pos]));
                        assert(is_ws(line@[end as int]));
                    }
                }
            }
            let mut tok: Vec<u8> = Vec::new();
            let mut q: usize = pos;
            while q < end
                invariant
                    pos <= q <= end <= line@.len(),
                    tok@.len() == q - pos,
                    forall|i: int| 0 <= i < tok@.len() ==> tok@[i] == line@[pos + i],
                decreases end - q,
            {
                tok.push(line[q]);
                q = q + 1;
            }
            proof {
                assert(tok@ =~= rest.subrange(0, end - pos));
            }
            let ghost old_tokens = tokens@;
            tokens.push(tok);
            proof {
                assert(tokens@.map_values(|t: Vec<u8>| t@) =~= old_tokens.map_values(
                    |t: Vec<u8>| t@,
                ) + seq![tok@]);
                assert(tokens_of(rest) == seq![rest.subrange(0, end - pos)] + tokens_of(
                    rest.subrange(end - pos, rest.len() as int),
                ));
                assert(rest.subrange(end - pos, rest.len() as int) =~= line@.subrange(
                    end as int,
                    line@.len() as int,
                ));
                assert(tokens@.map_values(|t: Vec<u8>| t@) + tokens_of(
                    line@.subrange(end as int, line@.len() as int),
                ) =~= tokens_of(line@));
            }
            pos = end;
        }
    }
    proof {
        assert(line@.subrange(pos as int, line@.len() as int) =~= Seq::<u8>::empty());
        assert(tokens@.map_values(|t: Vec<u8>| t@) + tokens_of(Seq::<u8>::empty())
            =~= tokens@.map_values(|t: Vec<u8>| t@));
    }
    tokens
}

/// Parse an unsigned machine word from one token: an optional `+`, then
/// decimal digits; anything else, or a value that does not fit, fails.
pub fn parse_usize_token(t: &[u8]) -> (r: Option<usize>)
    ensures
        r is Some <==> is_usize_token(t@),
        r matches Some(v) ==> v as int == usize_token_val(t@),
{
    let start: usize = if t.len() > 0 && t[0] == 43 {
        1
    } else {
        0
    };
    if t.len() > 0 && t[0] == 45 {
        return None;
    }
    let ghost ds = digits_part(t@);
    proof {
        if start == 1 {
            assert(ds =~= t@.subrange(1, t@.len() as int));
        } else {
            assert(ds =~= t@);
        }
    }
    if t.len() == start {
        proof {
            assert(!all_digits(ds));
        }
        return None;
    }
    let mut val: usize = 0;
    let mut i: usize = start;
    while i < t.len()
        invariant
            start <= i <= t@.len(),
            start == 0 || start == 1,
            start == 1 ==> t@.len() > 0 && t@[0] == 43,
            start == 0 ==> (t@.len() == 0 || (t@[0] != 43 && t@[0] != 45)),
            ds == digits_part(t@),
            ds.len() == t@.len() - start,
            forall|k: int| 0 <= k < ds.len() ==> ds[k] == t@[k + start],
            forall|k: int| 0 <= k < i - start ==> is_digit(#[trigger] ds[k]),
            val as int == digits_val(ds.subrange(0, i - start)),
        decreases t@.len() - i,
    {
        let c = t[i];
        if c < 48 || c > 57 {
            proof {
                assert(ds[i - start] == c);
                assert(!all_digits(ds));
            }
            return None;
        }
        let d = (c - 48) as usize;
        proof {
            assert(ds.subrange(0, i + 1 - start).drop_last() =~= ds.subrange(0, i - start));
            assert(ds.subrange(0, i + 1 - start).last() == ds[i - start]);
        }
        let m = match val.checked_mul(10) {
            Some(m) => m,
            None => {
                proof {
                    if all_digits(ds) {
                        lemma_digits_val_grows(ds, i + 1 - start);
                        assert(digits_val(ds.subrange(0, i + 1 - start)) > usize::MAX);
                        assert(digits_val(ds) > usize::MAX);
                    }
                    assert(!is_usize_token(t@));
                }
                return None;
            },
        };
        let s = match m.checked_add(d) {
            Some(s) => s,
            None => {
                proof {
                    if all_digits(ds) {
                        lemma_digits_val_grows(ds, i + 1 - start);
                        assert(digits_val(ds.subrange(0, i + 1 - start)) > usize::MAX);
                        assert(digits_val(ds) > usize::MAX);
                    }
                    assert(!is_usize_token(t@));
                }
                return None;
            },
        };
        val = s;
        i = i + 1;
    }
    proof {
        assert(ds.subrange(0, ds.len() as int) =~= ds);
        assert(all_digits(ds));
    }
    Some(val)
}

/// A digit prefix never exceeds the whole digit string in value.
proof fn lemma_digits_val_grows(ds: Seq<u8>, k: int)
    requires
        0 <= k <= ds.len(),
        forall|i: int| 0 <= i < ds.len() ==> is_digit(#[trigger] ds[i]),
    ensures
        digits_val(ds.subrange(0, k)) <= digits_val(ds),
        digits_val(ds) >= 0,
    decreases ds.len(),
{
    if ds.len() == 0 {
    } else {
        let pre = ds.drop_last();
        assert(forall|i: int| 0 <= i < pre.len() ==> pre[i] == ds[i]);
        lemma_digits_val_grows(pre, if k <= pre.len() {
            k
        } else {
            pre.len() as int
        });
        assert(ds.last() == ds[ds.len() - 1]);
        assert(is_digit(ds.last()));
        if k == ds.len() {
            assert(ds.subrange(0, k) =~= ds);
        } else {
            assert(ds.subrange(0, k) =~= pre.subrange(0, k));
        }
    }
}

/// Parse a 32-bit signed integer from one token: an optional sign, then
/// decimal digits; anything else, or a value that does not fit, fails.
pub fn parse_i32_token(t: &[u8]) -> (r: Option<i32>)
    ensures
        r is Some <==> is_i32_token(t@),
        r matches Some(v) ==> v as int == i32_token_val(t@),
{
    let neg = t.len() > 0 && t[0] == 45;
    let start: usize = if t.len() > 0 && (t[0] == 43 || t[0] == 45) {
        1
    } else {
        0
    };
    let ghost ds = digits_part(t@);
    proof {
        if start == 1 {
            assert(ds =~= t@.subrange(1, t@.len() as int));
        } else {
            assert(ds =~= t@);
        }
    }
    if t.len() == start {
        proof {
            assert(!all_digits(ds));
        }
        return None;
    }
    let mut val: u64 = 0;
    let mut i: usize = start;
    let limit: u64 = if neg {
        2147483648
    } else {
        2147483647
    };
    while i < t.len()
        invariant
            start <= i <= t@.len(),
            start == 0 || start == 1,
            start == 1 <==> (t@.len() > 0 && (t@[0] == 43 || t@[0] == 45)),
            neg <==> (t@.len() > 0 && t@[0] == 45),
            limit == (if neg {
                2147483648u64
            } else {
                2147483647u64
            }),
            ds == digits_part(t@),
            ds.len() == t@.len() - start,
            forall|k: int| 0 <= k < ds.len() ==> ds[k] == t@[k + start],
            forall|k: int| 0 <= k < i - start ==> is_digit(#[trigger] ds[k]),
            val as int == digits_val(ds.subrange(0, i - start)),
            val <= limit,
        decreases t@.len() - i,
    {
        let c = t[i];
        if c < 48 || c > 57 {
            proof {
                assert(ds[i - start] == c);
                assert(!all_digits(ds));
            }
            return None;
        }
        let d = (c - 48) as u64;
        proof {
            assert(ds.subrange(0, i + 1 - start).drop_last() =~= ds.subrange(0, i - start));
            assert(ds.subrange(0, i + 1 - start).last() == ds[i - start]);
        }
        let s = val * 10 + d;
        if s > limit {
            proof {
                if all_digits(ds) {
                    lemma_digits_val_grows(ds, i + 1 - start);
                    assert(digits_val(ds.subrange(0, i + 1 - start)) == s);
                    assert(digits_val(ds) >= s);
                    if neg {
                        assert(i32_token_val(t@) == -digits_val(ds));
                    } else {
                        assert(i32_token_val(t@) == digits_val(ds));
                    }
                }
                assert(!is_i32_token(t@));
            }
            return None;
        }
        val = s;
        i = i + 1;
    }
    proof {
        assert(ds.subrange(0, ds.len() as int) =~= ds);
        assert(all_digits(ds));
    }
    if neg {
        if val == 2147483648 {
            Some(i32::MIN)
        } else {
            Some(-(val as i32))
        }
    } else {
        Some(val as i32)
    }
}

/// Parser state for the DIMACS-style format, line by line.
pub ghost struct DicapsState {
    pub nv: int,
    pub ne: int,
    pub parsed: int,
    pub source: Option<int>,
    pub sink: Option<int>,
    pub edges: Seq<(VertexId, VertexId, FlowEdge)>,
    pub done: bool,
}

/// The state before any line was read.
pub open spec fn dicaps_init() -> DicapsState {
    DicapsState {
        nv: 0,
        ne: 0,
        parsed: 0,
        source: Option::None,
        sink: Option::None,
        edges: Seq::empty(),
        done: false,
    }
}

/// The token is the single byte `c`.
pub open spec fn tok_is(t: Seq<u8>, c: u8) -> bool {
    t.len() == 1 && t[0] == c
}

/// One line of the DIMACS-style format:
/// `p <..> <n> <m>` declares the counts; `a <u> <v> <c>` adds a directed
/// edge (kept only when its capacity is positive, but always counted);
/// `n <v> s` and `n <v> t` designate source and sink; a lone `a` or an
/// empty line stops reading; anything else is a fatal format error.
pub open spec fn dicaps_step(st: DicapsState, toks: Seq<Seq<u8>>) -> Option<DicapsState> {
    if toks.len() == 4 {
        if tok_is(toks[0], 112) {
            if is_usize_token(toks[2]) && is_usize_token(toks[3]) {
                Option::Some(
                    DicapsState {
                        nv: usize_token_val(toks[2]),
                        ne: usize_token_val(toks[3]),
                        ..st
                    },
                )
            } else {
                Option::None
            }
        } else if tok_is(toks[0], 97) {
            if is_usize_token(toks[1]) && is_usize_token(toks[2]) && is_i32_token(toks[3]) {
                if i32_token_val(toks[3]) > 0 {
                    Option::Some(
                        DicapsState {
                            edges: st.edges.push(
                                (
                                    usize_token_val(toks[1]) as usize,
                                    usize_token_val(toks[2]) as usize,
                                    FlowEdge { capacity: i32_token_val(toks[3]) as i32, flow: 0 },
                                ),
                            ),
                            parsed: st.parsed + 1,
                            ..st
                        },
                    )
                } else {
                    Option::Some(DicapsState { parsed: st.parsed + 1, ..st })
                }
            } else {
                Option::None
            }
        } else {
            Option::None
        }
    } else if toks.len() == 3 {
        if tok_is(toks[0], 110) && is_usize_token(toks[1]) && tok_is(toks[2], 115) {
            Option::Some(DicapsState { source: Option::Some(usize_token_val(toks[1])), ..st })
        } else if tok_is(toks[0], 110) && is_usize_token(toks[1]) && tok_is(toks[2], 116) {
            Option::Some(DicapsState { sink: Option::Some(usize_token_val(toks[1])), ..st })
        } else {
            Option::None
        }
    } else if toks.len() == 1 {
        if tok_is(toks[0], 97) {
            Option::Some(DicapsState { done: true, ..st })
        } else {
            Option::None
        }
    } else if toks.len() == 0 {
        Option::Some(DicapsState { done: true, ..st })
    } else {
        Option::None
    }
}

/// Run the line interpreter from line `i` onward.
pub open spec fn dicaps_run(lines: Seq<Seq<u8>>, i: int, st: DicapsState) -> Option<DicapsState>
    decreases lines.len() - i,
{
    if i < 0 || i >= lines.len() || st.done {
        Option::Some(st)
    } else {
        match dicaps_step(st, tokens_of(lines[i])) {
            Option::Some(st2) => dicaps_run(lines, i + 1, st2),
            Option::None => Option::None,
        }
    }
}

/// Vertex `v` occurs as an endpoint of some edge of `es`.
pub open spec fn edge_covers(es: Seq<(VertexId, VertexId, FlowEdge)>, v: int) -> bool {
    exists|k: int|
        0 <= k < es.len() && ((#[trigger] es[k]).0 as int == v || (es[k].1 as int) == v)
}

/// The final validations: a source and a sink were declared, as many edge
/// lines were read as the `p` line declared, every kept edge endpoint is a
/// declared vertex, and every declared vertex occurs in some kept edge.
pub open spec fn dicaps_ok(st: DicapsState) -> bool {
    &&& st.source is Some
    &&& st.sink is Some
    &&& st.parsed == st.ne
    &&& 0 <= st.nv <= usize::MAX
    &&& forall|k: int|
        0 <= k < st.edges.len() ==> ((#[trigger] st.edges[k]).0 as int) < st.nv && (
        st.edges[k].1 as int) < st.nv
    &&& forall|v: int| 0 <= v < st.nv ==> #[trigger] edge_covers(st.edges, v)
}

/// What parsing a whole DIMACS-style byte stream yields: the source, the
/// sink, the declared vertex count, and the kept forward edges in input
/// order -- or nothing on any format violation.
pub open spec fn spec_parse_dicaps(data: Seq<u8>) -> Option<
    (VertexId, VertexId, usize, Seq<(VertexId, VertexId, FlowEdge)>),
> {
    match dicaps_run(split_lines(data), 0, dicaps_init()) {
        Option::Some(st) => {
            if dicaps_ok(st) {
                Option::Some(
                    (
                        st.source.unwrap() as usize,
                        st.sink.unwrap() as usize,
                        st.nv as usize,
                        st.edges,
                    ),
                )
            } else {
                Option::None
            }
        },
        Option::None => Option::None,
    }
}

/// Parse a DIMACS-style max-flow byte stream into
/// `(source, sink, vertex count, forward edges)`; any malformed line,
/// count mismatch, missing designation or out-of-range endpoint fails.
pub fn parse_dicaps(data: &[u8]) -> (r: Option<
    (VertexId, VertexId, usize, Vec<(VertexId, VertexId, FlowEdge)>),
>)
    ensures
        (r is Some <==> spec_parse_dicaps(data@) is Some),
        r matches Some(p) ==> spec_parse_dicaps(data@) == Option::Some(
            (p.0, p.1, p.2, p.3@),
        ),
{
    let lines = split_lines_exec(data);
    let ghost lseq = split_lines(data@);
    let mut nv: usize = 0;
    let mut ne: usize = 0;
    let mut parsed: usize = 0;
    let mut source: Option<usize> = None;
    let mut sink: Option<usize> = None;
    let mut edges: Vec<(VertexId, VertexId, FlowEdge)> = Vec::new();
    let mut done = false;
    let mut i: usize = 0;
    let ghost st0 = dicaps_init();
    proof {
        lemma_split_lines_count(data@);
    }
    while i < lines.len() && !done
        invariant
            lseq == split_lines(data@),
            lines@.map_values(|l: Vec<u8>| l@) == lseq,
            lseq.len() <= data@.len() + 1,
            i <= lines@.len(),
            parsed <= i,
            dicaps_run(lseq, 0, dicaps_init()) == dicaps_run(
                lseq,
                i as int,
                DicapsState {
                    nv: nv as int,
                    ne: ne as int,
                    parsed: parsed as int,
                    source: match source {
                        Option::Some(v) => Option::Some(v as int),
                        Option::None => Option::None,
                    },
                    sink: match sink {
                        Option::Some(v) => Option::Some(v as int),
                        Option::None => Option::None,
                    },
                    edges: edges@,
                    done: done,
                },
            ),
        decreases lines@.len() - i,
    {
        let ghost st_cur = DicapsState {
            nv: nv as int,
            ne: ne as int,
            parsed: parsed as int,
            source: match source {
                Option::Some(v) => Option::Some(v as int),
                Option::None => Option::None,
            },
            sink: match sink {
                Option::Some(v) => Option::Some(v as int),
                Option::None => Option::None,
            },
            edges: edges@,
            done: done,
        };
        let toks = tokens_exec(lines[i].as_slice());
        let ghost tseq = tokens_of(lseq[i as int]);
        proof {
            assert(lines@[i as int]@ == lseq[i as int]);
            assert(toks@.map_values(|t: Vec<u8>| t@) == tseq);
        }
        if toks.len() == 4 {
            proof {
                assert(toks@[0]@ == tseq[0] && toks@[1]@ == tseq[1] && toks@[2]@ == tseq[2]
                    && toks@[3]@ == tseq[3]);
            }
            let t0 = &toks[0];
            if t0.len() == 1 && t0[0] == 112 {
                let pnv = match parse_usize_token(toks[2].as_slice()) {
                    Some(x) => x,
                    None => {
                        proof {
                            assert(dicaps_step(st_cur, tseq) is None);
                            lemma_dicaps_run_fails(lseq, i as int, st_cur);
                            assert(dicaps_run(lseq, 0, dicaps_init()) is None);
                            assert(spec_parse_dicaps(data@) is None);
                        }
                        return None;
                    },
                };
                let pne = match parse_usize_token(toks[3].as_slice()) {
                    Some(x) => x,
                    None => {
                        proof {
                            assert(dicaps_step(st_cur, tseq) is None);
                            lemma_dicaps_run_fails(lseq, i as int, st_cur);
                            assert(dicaps_run(lseq, 0, dicaps_init()) is None);
                            assert(spec_parse_dicaps(data@) is None);
                        }
                        return None;
                    },
                };
                nv = pnv;
                ne = pne;
            } else if t0.len() == 1 && t0[0] == 97 {
                let u = match parse_usize_token(toks[1].as_slice()) {
                    Some(x) => x,
                    None => {
                        proof {
                            assert(dicaps_step(st_cur, tseq) is None);
                            lemma_dicaps_run_fails(lseq, i as int, st_cur);
                            assert(dicaps_run(lseq, 0, dicaps_init()) is None);
                            assert(spec_parse_dicaps(data@) is None);
                        }
                        return None;
                    },
                };
                let v = match parse_usize_token(toks[2].as_slice()) {
                    Some(x) => x,
                    None => {
                        proof {
                            assert(dicaps_step(st_cur, tseq) is None);
                            lemma_dicaps_run_fails(lseq, i as int, st_cur);
                            assert(dicaps_run(lseq, 0, dicaps_init()) is None);
                            assert(spec_parse_dicaps(data@) is None);
                        }
                        return None;
                    },
                };
                let capacity = match parse_i32_token(toks[3].as_slice()) {
                    Some(x) => x,
                    None => {
                        proof {
                            assert(dicaps_step(st_cur, tseq) is None);
                            lemma_dicaps_run_fails(lseq, i as int, st_cur);
                            assert(dicaps_run(lseq, 0, dicaps_init()) is None);
                            assert(spec_parse_dicaps(data@) is None);
                        }
                        return None;
                    },
                };
                if capacity > 0 {
                    edges.push((u, v, FlowEdge { capacity, flow: 0 }));
                }
                parsed = parsed + 1;
            } else {
                proof {
                    assert(dicaps_step(st_cur, tseq) is None);
                    lemma_dicaps_run_fails(lseq, i as int, st_cur);
                    assert(dicaps_run(lseq, 0, dicaps_init()) is None);
                    assert(spec_parse_dicaps(data@) is None);
                }
                return None;
            }
        } else if toks.len() == 3 {
            proof {
                assert(toks@[0]@ == tseq[0] && toks@[1]@ == tseq[1] && toks@[2]@ == tseq[2]);
            }
            let t0 = &toks[0];
            let t2 = &toks[2];
            let n_line = t0.len() == 1 && t0[0] == 110;
            let is_s = t2.len() == 1 && t2[0] == 115;
            let is_t = t2.len() == 1 && t2[0] == 116;
            if n_line && (is_s || is_t) {
                let v = match parse_usize_token(toks[1].as_slice()) {
                    Some(x) => x,
                    None => {
                        proof {
                            assert(dicaps_step(st_cur, tseq) is None);
                            lemma_dicaps_run_fails(lseq, i as int, st_cur);
                            assert(dicaps_run(lseq, 0, dicaps_init()) is None);
                            assert(spec_parse_dicaps(data@) is None);
                        }
                        return None;
                    },
                };
                if is_s {
                    source = Some(v);
                } else {
                    sink = Some(v);
                }
            } else {
                proof {
                    assert(dicaps_step(st_cur, tseq) is None);
                    lemma_dicaps_run_fails(lseq, i as int, st_cur);
                    assert(dicaps_run(lseq, 0, dicaps_init()) is None);
                    assert(spec_parse_dicaps(data@) is None);
                }
                return None;
            }
        } else if toks.len() == 1 {
            proof {
                assert(toks@[0]@ == tseq[0]);
            }
            let t0 = &toks[0];
            if t0.len() == 1 && t0[0] == 97 {
                done = true;
            } else {
                proof {
                    assert(dicaps_step(st_cur, tseq) is None);
                    lemma_dicaps_run_fails(lseq, i as int, st_cur);
                    assert(dicaps_run(lseq, 0, dicaps_init()) is None);
                    assert(spec_parse_dicaps(data@) is None);
                }
                return None;
            }
        } else if toks.len() == 0 {
            done = true;
        } else {
            proof {
                assert(dicaps_step(st_cur, tseq) is None);
                lemma_dicaps_run_fails(lseq, i as int, st_cur);
                assert(dicaps_run(lseq, 0, dicaps_init()) is None);
                assert(spec_parse_dicaps(data@) is None);
            }
            return None;
        }
        proof {
            let st_next = DicapsState {
                nv: nv as int,
                ne: ne as int,
                parsed: parsed as int,
                source: match source {
                    Option::Some(v) => Option::Some(v as int),
                    Option::None => Option::None,
                },
                sink: match sink {
                    Option::Some(v) => Option::Some(v as int),
                    Option::None => Option::None,
                },
                edges: edges@,
                done: done,
            };
            assert(dicaps_step(st_cur, tseq) == Option::Some(st_next));
            assert(dicaps_run(lseq, i as int, st_cur) == dicaps_run(lseq, i + 1, st_next));
        }
        i = i + 1;
    }
    let ghost st_fin = DicapsState {
        nv: nv as int,
        ne: ne as int,
        parsed: parsed as int,
        source: match source {
            Option::Some(v) => Option::Some(v as int),
            Option::None => Option::None,
        },
        sink: match sink {
            Option::Some(v) => Option::Some(v as int),
            Option::None => Option::None,
        },
        edges: edges@,
        done: done,
    };
    proof {
        assert(dicaps_run(lseq, 0, dicaps_init()) == Option::Some(st_fin));
    }
    let src = match source {
        Some(v) => v,
        None => {
            return None;
        },
    };
    let snk = match sink {
        Some(v) => v,
        None => {
            return None;
        },
    };
    if parsed != ne {
        return None;
    }
    // every kept endpoint must name a declared vertex
    let mut k: usize = 0;
    while k < edges.len()
        invariant
            lseq == split_lines(data@),
            dicaps_run(lseq, 0, dicaps_init()) == Option::Some(st_fin),
            st_fin.edges == edges@,
            st_fin.nv == nv as int,
            k <= edges@.len(),
            forall|m: int|
                0 <= m < k ==> ((#[trigger] edges@[m]).0 as int) < nv as int && (
                edges@[m].1 as int) < nv as int,
        decreases edges@.len() - k,
    {
        let e = edges[k];
        if e.0 >= nv || e.1 >= nv {
            proof {
                assert(st_fin.edges == edges@);
                assert(st_fin.edges[k as int] == e);
                assert(!(((st_fin.edges[k as int]).0 as int) < st_fin.nv && ((
                st_fin.edges[k as int]).1 as int) < st_fin.nv));
                assert(!dicaps_ok(st_fin));
            }
            return None;
        }
        k = k + 1;
    }
    // every declared vertex must occur in some kept edge
    let mut seen: Vec<bool> = Vec::new();
    let mut w: usize = 0;
    while w < nv
        invariant
            lseq == split_lines(data@),
            dicaps_run(lseq, 0, dicaps_init()) == Option::Some(st_fin),
            st_fin.edges == edges@,
            st_fin.nv == nv as int,
            forall|m: int|
                0 <= m < edges@.len() ==> ((#[trigger] edges@[m]).0 as int) < nv as int && (
                edges@[m].1 as int) < nv as int,
            w <= nv,
            seen@.len() == w,
            forall|m: int| 0 <= m < w ==> !(#[trigger] seen@[m]),
        decreases nv - w,
    {
        seen.push(false);
        w = w + 1;
    }
    let mut k2: usize = 0;
    while k2 < edges.len()
        invariant
            lseq == split_lines(data@),
            dicaps_run(lseq, 0, dicaps_init()) == Option::Some(st_fin),
            st_fin.edges == edges@,
            st_fin.nv == nv as int,
            k2 <= edges@.len(),
            seen@.len() == nv,
            forall|m: int|
                0 <= m < edges@.len() ==> ((#[trigger] edges@[m]).0 as int) < nv as int && (
                edges@[m].1 as int) < nv as int,
            forall|m: int|
                0 <= m < nv ==> ((#[trigger] seen@[m]) <==> exists|k3: int|
                    0 <= k3 < k2 && (((#[trigger] edges@[k3]).0 as int) == m || (
                    edges@[k3].1 as int) == m)),
        decreases edges@.len() - k2,
    {
        let e = edges[k2];
        let ghost pre_seen = seen@;
        seen[e.0] = true;
        seen[e.1] = true;
        proof {
            assert forall|m: int|
                0 <= m < nv implies ((#[trigger] seen@[m]) <==> exists|k3: int|
                0 <= k3 < k2 + 1 && (((#[trigger] edges@[k3]).0 as int) == m || (
                edges@[k3].1 as int) == m)) by {
                if m == e.0 as int || m == e.1 as int {
                    assert(seen@[m]);
                    assert((edges@[k2 as int].0 as int) == m || (edges@[k2 as int].1 as int)
                        == m);
                } else {
                    assert(seen@[m] == pre_seen[m]);
                    if seen@[m] {
                        let k3 = choose|k3: int|
                            0 <= k3 < k2 && (((#[trigger] edges@[k3]).0 as int) == m || (
                            edges@[k3].1 as int) == m);
                        assert(0 <= k3 < k2 + 1);
                    }
                    if exists|k3: int|
                        0 <= k3 < k2 + 1 && (((#[trigger] edges@[k3]).0 as int) == m || (
                        edges@[k3].1 as int) == m) {
                        let k3 = choose|k3: int|
                            0 <= k3 < k2 + 1 && (((#[trigger] edges@[k3]).0 as int) == m || (
                            edges@[k3].1 as int) == m);
                        assert(k3 < k2);
                    }
                }
            }
        }
        k2 = k2 + 1;
    }
    proof {
        assert forall|m: int|
            0 <= m < nv implies ((#[trigger] seen@[m]) <==> edge_covers(edges@, m)) by {}
    }
    let mut w2: usize = 0;
    while w2 < nv
        invariant
            lseq == split_lines(data@),
            dicaps_run(lseq, 0, dicaps_init()) == Option::Some(st_fin),
            st_fin.edges == edges@,
            st_fin.nv == nv as int,
            forall|m: int|
                0 <= m < edges@.len() ==> ((#[trigger] edges@[m]).0 as int) < nv as int && (
                edges@[m].1 as int) < nv as int,
            w2 <= nv,
            seen@.len() == nv,
            forall|m: int|
                0 <= m < nv ==> ((#[trigger] seen@[m]) <==> edge_covers(edges@, m)),
            forall|m: int| 0 <= m < w2 ==> #[trigger] seen@[m],
        decreases nv - w2,
    {
        if !seen[w2] {
            proof {
                assert(!edge_covers(edges@, w2 as int));
                assert(st_fin.edges == edges@);
                assert(!edge_covers(st_fin.edges, w2 as int));
                assert((w2 as int) < st_fin.nv);
                assert(!dicaps_ok(st_fin));
            }
            return None;
        }
        w2 = w2 + 1;
    }
    proof {
        assert(st_fin.edges == edges@);
        assert forall|k3: int|
            0 <= k3 < st_fin.edges.len() implies ((#[trigger] st_fin.edges[k3]).0 as int)
            < st_fin.nv && ((st_fin.edges[k3].1 as int) < st_fin.nv) by {
            assert(st_fin.edges[k3] == edges@[k3]);
        }
        assert forall|v: int|
            0 <= v < st_fin.nv implies #[trigger] edge_covers(st_fin.edges, v) by {
            assert(seen@[v]);
            assert(edge_covers(edges@, v));
        }
        assert(dicaps_ok(st_fin));
    }
    Some((src, snk, nv, edges))
}

/// A failing line makes the whole run fail.
proof fn lemma_dicaps_run_fails(lines: Seq<Seq<u8>>, i: int, st: DicapsState)
    requires
        0 <= i < lines.len(),
        !st.done,
        dicaps_step(st, tokens_of(lines[i])) is None,
    ensures
        dicaps_run(lines, i, st) is None,
{
}

/// Parser state for the dense text format: the declared vertex count from
/// the first line, then one capacity row per line.
pub ghost struct TxtState {
    pub nv: int,
    pub got_nv: bool,
    pub row: int,
    pub edges: Seq<(VertexId, VertexId, FlowEdge)>,
}

/// The state before any line was read.
pub open spec fn txt_init() -> TxtState {
    TxtState { nv: 0, got_nv: false, row: 0, edges: Seq::empty() }
}

/// The edges contributed by the first `upto` entries of one capacity row:
/// one edge per strictly positive entry.
pub open spec fn txt_row_edges(toks: Seq<Seq<u8>>, row: int, upto: int) -> Seq<
    (VertexId, VertexId, FlowEdge),
>
    decreases upto,
{
    if upto <= 0 {
        Seq::empty()
    } else {
        let pre = txt_row_edges(toks, row, upto - 1);
        if i32_token_val(toks[upto - 1]) > 0 {
            pre.push(
                (
                    row as usize,
                    (upto - 1) as usize,
                    FlowEdge { capacity: i32_token_val(toks[upto - 1]) as i32, flow: 0 },
                ),
            )
        } else {
            pre
        }
    }
}

/// Every entry of the row is a well-formed capacity.
pub open spec fn txt_row_ok(toks: Seq<Seq<u8>>) -> bool {
    forall|k: int| 0 <= k < toks.len() ==> is_i32_token(#[trigger] toks[k])
}

/// One line of the text format: the first line is the vertex count, each
/// later line is one whitespace-separated capacity row.
pub open spec fn txt_step(st: TxtState, toks: Seq<Seq<u8>>) -> Option<TxtState> {
    if !st.got_nv {
        if toks.len() > 0 && is_usize_token(toks[0]) {
            Option::Some(TxtState { nv: usize_token_val(toks[0]), got_nv: true, ..st })
        } else {
            Option::None
        }
    } else {
        if txt_row_ok(toks) {
            Option::Some(
                TxtState {
                    edges: st.edges + txt_row_edges(toks, st.row, toks.len() as int),
                    row: st.row + 1,
                    ..st
                },
            )
        } else {
            Option::None
        }
    }
}

/// Run the line interpreter from line `i` onward.
pub open spec fn txt_run(lines: Seq<Seq<u8>>, i: int, st: TxtState) -> Option<TxtState>
    decreases lines.len() - i,
{
    if i < 0 || i >= lines.len() {
        Option::Some(st)
    } else {
        match txt_step(st, tokens_of(lines[i])) {
            Option::Some(st2) => txt_run(lines, i + 1, st2),
            Option::None => Option::None,
        }
    }
}

/// Final validations for the text format: a vertex count of at least one
/// was read and every positive entry sits inside the declared square.
pub open spec fn txt_ok(st: TxtState) -> bool {
    &&& st.got_nv
    &&& 1 <= st.nv <= usize::MAX
    &&& forall|k: int|
        0 <= k < st.edges.len() ==> ((#[trigger] st.edges[k]).0 as int) < st.nv && (
        st.edges[k].1 as int) < st.nv
}

/// What parsing a whole dense-text byte stream yields: the vertex count
/// and the positive-capacity edges in row-major order -- or nothing on any
/// format violation.  The source is fixed to vertex `0` and the sink to
/// vertex `n - 1` by the format.
pub open spec fn spec_parse_txt(data: Seq<u8>) -> Option<
    (usize, Seq<(VertexId, VertexId, FlowEdge)>),
> {
    match txt_run(split_lines(data), 0, txt_init()) {
        Option::Some(st) => {
            if txt_ok(st) {
                Option::Some((st.nv as usize, st.edges))
            } else {
                Option::None
            }
        },
        Option::None => Option::None,
    }
}

/// A failing line makes the whole text run fail.
proof fn lemma_txt_run_fails(lines: Seq<Seq<u8>>, i: int, st: TxtState)
    requires
        0 <= i < lines.len(),
        txt_step(st, tokens_of(lines[i])) is None,
    ensures
        txt_run(lines, i, st) is None,
{
}

/// Parse a dense-text byte stream into `(vertex count, edges)`; a
/// malformed count or capacity, a zero vertex count, or an entry outside
/// the declared square fails.
pub fn parse_txt(data: &[u8]) -> (r: Option<(usize, Vec<(VertexId, VertexId, FlowEdge)>)>)
    ensures
        (r is Some <==> spec_parse_txt(data@) is Some),
        r matches Some(p) ==> spec_parse_txt(data@) == Option::Some((p.0, p.1@)),
{
    let lines = split_lines_exec(data);
    let ghost lseq = split_lines(data@);
    let mut nv: usize = 0;
    let mut got_nv = false;
    let mut row: usize = 0;
    let mut edges: Vec<(VertexId, VertexId, FlowEdge)> = Vec::new();
    let mut i: usize = 0;
    while i < lines.len()
        invariant
            lseq == split_lines(data@),
            lines@.map_values(|l: Vec<u8>| l@) == lseq,
            i <= lines@.len(),
            row <= i,
            txt_run(lseq, 0, txt_init()) == txt_run(
                lseq,
                i as int,
                TxtState { nv: nv as int, got_nv: got_nv, row: row as int, edges: edges@ },
            ),
        decreases lines@.len() - i,
    {
        let ghost st_cur = TxtState {
            nv: nv as int,
            got_nv: got_nv,
            row: row as int,
            edges: edges@,
        };
        let toks = tokens_exec(lines[i].as_slice());
        let ghost tseq = tokens_of(lseq[i as int]);
        proof {
            assert(lines@[i as int]@ == lseq[i as int]);
            assert(toks@.map_values(|t: Vec<u8>| t@) == tseq);
        }
        if !got_nv {
            if toks.len() == 0 {
                proof {
                    assert(txt_step(st_cur, tseq) is None);
                    lemma_txt_run_fails(lseq, i as int, st_cur);
                    assert(spec_parse_txt(data@) is None);
                }
                return None;
            }
            proof {
                assert(toks@[0]@ == tseq[0]);
            }
            let parsed_nv = match parse_usize_token(toks[0].as_slice()) {
                Some(x) => x,
                None => {
                    proof {
                        assert(txt_step(st_cur, tseq) is None);
                        lemma_txt_run_fails(lseq, i as int, st_cur);
                        assert(spec_parse_txt(data@) is None);
                    }
                    return None;
                },
            };
            nv = parsed_nv;
            got_nv = true;
            proof {
                let st_next = TxtState {
                    nv: nv as int,
                    got_nv: true,
                    row: row as int,
                    edges: edges@,
                };
                assert(txt_step(st_cur, tseq) == Option::Some(st_next));
            }
        } else {
            let ghost pre_edges = edges@;
            let mut c: usize = 0;
            while c < toks.len()
                invariant
                    lseq == split_lines(data@),
                    lines@.map_values(|l: Vec<u8>| l@) == lseq,
                    i < lines@.len(),
                    tseq == tokens_of(lseq[i as int]),
                    st_cur == (TxtState {
                        nv: nv as int,
                        got_nv: true,
                        row: row as int,
                        edges: pre_edges,
                    }),
                    txt_run(lseq, 0, txt_init()) == txt_run(lseq, i as int, st_cur),
                    c <= toks@.len(),
                    toks@.map_values(|t: Vec<u8>| t@) == tseq,
                    forall|k: int| 0 <= k < c ==> is_i32_token(#[trigger] tseq[k]),
                    edges@ == pre_edges + txt_row_edges(tseq, row as int, c as int),
                decreases toks@.len() - c,
            {
                proof {
                    assert(toks@[c as int]@ == tseq[c as int]);
                }
                let capacity = match parse_i32_token(toks[c].as_slice()) {
                    Some(x) => x,
                    None => {
                        proof {
                            assert(!is_i32_token(tseq[c as int]));
                            assert(!txt_row_ok(tseq));
                            assert(txt_step(st_cur, tseq) is None);
                            lemma_txt_run_fails(lseq, i as int, st_cur);
                            assert(spec_parse_txt(data@) is None);
                        }
                        return None;
                    },
                };
                if capacity > 0 {
                    edges.push((row, c, FlowEdge { capacity, flow: 0 }));
                }
                proof {
                    assert(edges@ =~= pre_edges + txt_row_edges(tseq, row as int, c + 1 as int));
                }
                c = c + 1;
            }
            proof {
                assert(txt_row_ok(tseq));
                let st_next = TxtState {
                    nv: nv as int,
                    got_nv: true,
                    row: row as int + 1,
                    edges: pre_edges + txt_row_edges(tseq, row as int, tseq.len() as int),
                };
                assert(txt_step(st_cur, tseq) == Option::Some(st_next));
            }
            row = row + 1;
        }
        i = i + 1;
    }
    let ghost st_fin = TxtState {
        nv: nv as int,
        got_nv: got_nv,
        row: row as int,
        edges: edges@,
    };
    proof {
        assert(txt_run(lseq, 0, txt_init()) == Option::Some(st_fin));
    }
    if !got_nv || nv == 0 {
        return None;
    }
    let mut k: usize = 0;
    while k < edges.len()
        invariant
            lseq == split_lines(data@),
            txt_run(lseq, 0, txt_init()) == Option::Some(st_fin),
            st_fin.edges == edges@,
            st_fin.nv == nv as int,
            st_fin.got_nv,
            1 <= nv,
            k <= edges@.len(),
            forall|m: int|
                0 <= m < k ==> ((#[trigger] edges@[m]).0 as int) < nv as int && (
                edges@[m].1 as int) < nv as int,
        decreases edges@.len() - k,
    {
        let e = edges[k];
        if e.0 >= nv || e.1 >= nv {
            proof {
                assert(st_fin.edges[k as int] == e);
                assert(!txt_ok(st_fin));
            }
            return None;
        }
        k = k + 1;
    }
    proof {
        assert forall|k3: int|
            0 <= k3 < st_fin.edges.len() implies ((#[trigger] st_fin.edges[k3]).0 as int)
            < st_fin.nv && ((st_fin.edges[k3].1 as int) < st_fin.nv) by {
            assert(st_fin.edges[k3] == edges@[k3]);
        }
        assert(txt_ok(st_fin));
    }
    Some((nv, edges))
}

/// The synthesized residual edges swap endpoints, so they stay in range.
proof fn lemma_residuals_in_range(all: Seq<(VertexId, VertexId, FlowEdge)>, i: int, n: int)
    requires
        forall|k: int|
            0 <= k < all.len() ==> ((#[trigger] all[k]).0 as int) < n && ((all[k].1 as int) < n),
    ensures
        forall|k: int|
            0 <= k < residuals_of(all, i).len() ==> ((#[trigger] residuals_of(all, i)[k]).0 as int)
                < n && ((residuals_of(all, i)[k].1 as int) < n),
    decreases all.len() - i,
{
    if 0 <= i < all.len() {
        lemma_residuals_in_range(all, i + 1, n);
        let rest = residuals_of(all, i + 1);
        assert forall|k: int|
            0 <= k < residuals_of(all, i).len() implies ((#[trigger] residuals_of(all, i)[k]).0 as int)
            < n && ((residuals_of(all, i)[k].1 as int) < n) by {
            if !crate::flow::contains_pair(all, all[i].1, all[i].0) {
                if k == 0 {
                    assert(residuals_of(all, i)[k] == (all[i].1, all[i].0, FlowEdge {
                        capacity: 0,
                        flow: 0,
                    }));
                } else {
                    assert(residuals_of(all, i)[k] == rest[k - 1]);
                }
            } else {
                assert(residuals_of(all, i)[k] == rest[k]);
            }
        }
    }
}

/// Read a whole DIMACS-style byte stream and build the flow network:
/// parse, synthesize the residual edges, and construct the graph over the
/// declared vertex range.  Returns the source, the sink and the graph, or
/// nothing on any format violation.
pub fn flow_network_from_dicaps(data: &[u8]) -> (r: Option<(VertexId, VertexId, Graph<FlowEdge>)>)
    ensures
        (r is Some <==> spec_parse_dicaps(data@) is Some),
        r matches Some(p) ==> spec_parse_dicaps(data@) matches Some(q) && p.0 == q.0 && p.1 == q.1
            && built_network(p.2, q.2, q.3),
{
    let parsed = match parse_dicaps(data) {
        Some(p) => p,
        None => {
            return None;
        },
    };
    let (source, sink, nv, mut edges) = parsed;
    let ghost fwd = edges@;
    create_residual_edges(&mut edges);
    proof {
        lemma_residuals_in_range(fwd, 0, nv as int);
    }
    let mut vertexes: Vec<VertexId> = Vec::new();
    let mut i: usize = 0;
    while i < nv
        invariant
            i <= nv,
            vertexes@.len() == i,
            forall|j: int| 0 <= j < i ==> (#[trigger] vertexes@[j]) as int == j,
        decreases nv - i,
    {
        vertexes.push(i);
        i = i + 1;
    }
    let g = Graph::<FlowEdge>::new(vertexes.as_slice(), edges.as_slice());
    Some((source, sink, g))
}

/// The graph `g` is the dense network over `nv` vertices built from the
/// forward edges `fwd` together with their synthesized residuals.
pub open spec fn built_network(
    g: Graph<FlowEdge>,
    nv: usize,
    fwd: Seq<(VertexId, VertexId, FlowEdge)>,
) -> bool {
    let full = fwd + residuals_of(fwd, 0);
    &&& g.wf()
    &&& g.spec_n() == nv as int
    &&& g.spec_n_edges() == full.len()
    &&& forall|u: int, v: int|
        0 <= u < g.spec_n() && 0 <= v < g.spec_n() ==> #[trigger] g.mat()[u][v] == edge_value(
            full,
            u,
            v,
        )
    &&& forall|u: int| 0 <= u < g.spec_n() ==> #[trigger] g.nbs()[u] == dests_of(full, u)
}

/// Read a whole dense-text byte stream and build the flow network.  The
/// format fixes the source to vertex `0` and the sink to vertex `n - 1`.
pub fn flow_network_from_txt(data: &[u8]) -> (r: Option<(VertexId, VertexId, Graph<FlowEdge>)>)
    ensures
        (r is Some <==> spec_parse_txt(data@) is Some),
        r matches Some(p) ==> spec_parse_txt(data@) matches Some(q) && p.0 == 0 && p.1 as int
            == q.0 as int - 1 && built_network(p.2, q.0, q.1),
{
    let parsed = match parse_txt(data) {
        Some(p) => p,
        None => {
            return None;
        },
    };
    let (nv, mut edges) = parsed;
    let ghost fwd = edges@;
    create_residual_edges(&mut edges);
    proof {
        lemma_residuals_in_range(fwd, 0, nv as int);
    }
    let mut vertexes: Vec<VertexId> = Vec::new();
    let mut i: usize = 0;
    while i < nv
        invariant
            i <= nv,
            vertexes@.len() == i,
            forall|j: int| 0 <= j < i ==> (#[trigger] vertexes@[j]) as int == j,
        decreases nv - i,
    {
        vertexes.push(i);
        i = i + 1;
    }
    let g = Graph::<FlowEdge>::new(vertexes.as_slice(), edges.as_slice());
    Some((0, nv - 1, g))
}

/// Every synthesized residual is the zero-capacity reverse of some
/// forward edge whose explicit reverse is missing; no two name the same
/// pair, and none names a pair of the input list.
proof fn lemma_residual_shape(all: Seq<(VertexId, VertexId, FlowEdge)>, i: int)
    requires
        distinct_pairs(all),
    ensures
        forall|m: int|
            0 <= m < residuals_of(all, i).len() ==> exists|k: int|
                i <= k < all.len() && #[trigger] residuals_of(all, i)[m] == (
                    all[k].1,
                    all[k].0,
                    FlowEdge { capacity: 0, flow: 0 },
                ) && !contains_pair(all, all[k].1, all[k].0),
        distinct_pairs(residuals_of(all, i)),
    decreases all.len() - i,
{
    if 0 <= i < all.len() {
        lemma_residual_shape(all, i + 1);
        let rest = residuals_of(all, i + 1);
        let cur = residuals_of(all, i);
        if !contains_pair(all, all[i].1, all[i].0) {
            assert(cur == seq![(all[i].1, all[i].0, FlowEdge { capacity: 0, flow: 0 })] + rest);
            assert forall|m: int|
                0 <= m < cur.len() implies exists|k: int|
                i <= k < all.len() && #[trigger] cur[m] == (
                    all[k].1,
                    all[k].0,
                    FlowEdge { capacity: 0, flow: 0 },
                ) && !contains_pair(all, all[k].1, all[k].0) by {
                if m == 0 {
                    assert(cur[m] == (all[i].1, all[i].0, FlowEdge { capacity: 0, flow: 0 }));
                } else {
                    assert(cur[m] == rest[m - 1]);
                    let k = choose|k: int|
                        i + 1 <= k < all.len() && #[trigger] rest[m - 1] == (
                            all[k].1,
                            all[k].0,
                            FlowEdge { capacity: 0, flow: 0 },
                        ) && !contains_pair(all, all[k].1, all[k].0);
                    assert(cur[m] == (all[k].1, all[k].0, FlowEdge { capacity: 0, flow: 0 }));
                }
            }
            assert forall|m1: int, m2: int|
                0 <= m1 < m2 < cur.len() implies !((#[trigger] cur[m1]).0 == (
            #[trigger] cur[m2]).0 && cur[m1].1 == cur[m2].1) by {
                if m1 == 0 {
                    assert(cur[m2] == rest[m2 - 1]);
                    let k = choose|k: int|
                        i + 1 <= k < all.len() && #[trigger] rest[m2 - 1] == (
                            all[k].1,
                            all[k].0,
                            FlowEdge { capacity: 0, flow: 0 },
                        ) && !contains_pair(all, all[k].1, all[k].0);
                    if cur[m1].0 == cur[m2].0 && cur[m1].1 == cur[m2].1 {
                        assert(all[k].1 == all[i].1 && all[k].0 == all[i].0);
                        assert(!distinct_pairs(all));
                    }
                } else {
                    assert(cur[m1] == rest[m1 - 1] && cur[m2] == rest[m2 - 1]);
                }
            }
        } else {
            assert(cur == rest);
        }
    }
}

/// The reverse of any forward edge without an explicit reverse is in the
/// synthesized list.
proof fn lemma_residual_complete(all: Seq<(VertexId, VertexId, FlowEdge)>, i: int, k: int)
    requires
        0 <= i <= k < all.len(),
        !contains_pair(all, all[k].1, all[k].0),
    ensures
        contains_pair(residuals_of(all, i), all[k].1, all[k].0),
    decreases all.len() - i,
{
    let rest = residuals_of(all, i + 1);
    let cur = residuals_of(all, i);
    if i == k {
        assert(cur[0] == (all[k].1, all[k].0, FlowEdge { capacity: 0, flow: 0 }));
        assert(cur[0].0 == all[k].1 && cur[0].1 == all[k].0);
    } else {
        lemma_residual_complete(all, i + 1, k);
        let m = choose|m: int|
            0 <= m < rest.len() && #[trigger] rest[m].0 == all[k].1 && rest[m].1 == all[k].0;
        if !contains_pair(all, all[i].1, all[i].0) {
            assert(cur[m + 1] == rest[m]);
            assert(cur[m + 1].0 == all[k].1 && cur[m + 1].1 == all[k].0);
        } else {
            assert(cur == rest);
            assert(cur[m].0 == all[k].1 && cur[m].1 == all[k].0);
        }
    }
}

/// A destination stands in `u`\'s list exactly when the pair was inserted.
proof fn lemma_dests_iff_pair<E: Property>(es: Seq<(VertexId, VertexId, E)>, u: int, v: VertexId)
    requires
        0 <= u <= usize::MAX,
    ensures
        dests_of(es, u).contains(v) <==> contains_pair(es, (u as usize) as VertexId, v),
    decreases es.len(),
{
    if es.len() > 0 {
        let pre = es.drop_last();
        assert(es.last() == es[es.len() - 1]);
        assert(forall|m: int| 0 <= m < pre.len() ==> #[trigger] pre[m] == es[m]);
        lemma_dests_iff_pair(pre, u, v);
        let d = dests_of(es, u);
        let dp = dests_of(pre, u);
        if es.last().0 as int == u && es.last().1 == v {
            assert(d.last() == v);
            assert(d.contains(v));
            assert(contains_pair(es, u as usize, v));
        } else {
            assert(d.contains(v) <==> dp.contains(v)) by {
                if es.last().0 as int == u {
                    assert(d == dp.push(es.last().1));
                    if d.contains(v) {
                        let m = choose|m: int| 0 <= m < d.len() && d[m] == v;
                        assert(m < d.len() - 1);
                        assert(dp[m] == v);
                    }
                    if dp.contains(v) {
                        let m = choose|m: int| 0 <= m < dp.len() && dp[m] == v;
                        assert(d[m] == v);
                    }
                }
            }
            assert(contains_pair(es, u as usize, v) <==> contains_pair(pre, u as usize, v)) by {
                if contains_pair(es, u as usize, v) {
                    let m = choose|m: int|
                        0 <= m < es.len() && #[trigger] es[m].0 == u as usize && es[m].1 == v;
                    assert(m < pre.len());
                    assert(pre[m] == es[m]);
                }
                if contains_pair(pre, u as usize, v) {
                    let m = choose|m: int|
                        0 <= m < pre.len() && #[trigger] pre[m].0 == u as usize && pre[m].1 == v;
                    assert(es[m] == pre[m]);
                }
            }
        }
    }
}

/// With no repeated pair, no destination repeats in one source\'s list.
proof fn lemma_dests_distinct<E: Property>(es: Seq<(VertexId, VertexId, E)>, u: int)
    requires
        distinct_pairs(es),
        0 <= u <= usize::MAX,
    ensures
        forall|i: int, j: int|
            0 <= i < j < dests_of(es, u).len() ==> dests_of(es, u)[i] != dests_of(es, u)[j],
    decreases es.len(),
{
    if es.len() > 0 {
        let pre = es.drop_last();
        assert(es.last() == es[es.len() - 1]);
        assert(forall|m: int| 0 <= m < pre.len() ==> #[trigger] pre[m] == es[m]);
        lemma_dests_distinct(pre, u);
        let d = dests_of(es, u);
        let dp = dests_of(pre, u);
        if es.last().0 as int == u {
            assert(d == dp.push(es.last().1));
            assert(!dp.contains(es.last().1)) by {
                if dp.contains(es.last().1) {
                    lemma_dests_iff_pair(pre, u, es.last().1);
                    let m = choose|m: int|
                        0 <= m < pre.len() && #[trigger] pre[m].0 == u as usize && pre[m].1
                            == es.last().1;
                    assert(!distinct_pairs(es));
                }
            }
            assert forall|i: int, j: int| 0 <= i < j < d.len() implies d[i] != d[j] by {
                if j < d.len() - 1 {
                    assert(d[i] == dp[i] && d[j] == dp[j]);
                } else {
                    assert(d[i] == dp[i]);
                    assert(d[j] == es.last().1);
                    assert(dp.contains(dp[i]));
                }
            }
        }
    }
}

/// A non-absent slot comes from some inserted triple.
proof fn lemma_edge_value_member<E: Property>(es: Seq<(VertexId, VertexId, E)>, u: int, v: int)
    ensures
        edge_value(es, u, v) == E::absent() || exists|k: int|
            0 <= k < es.len() && (#[trigger] es[k]).0 as int == u && es[k].1 as int == v && es[k].2
                == edge_value(es, u, v),
    decreases es.len(),
{
    if es.len() > 0 {
        assert(es.last() == es[es.len() - 1]);
        if es.last().0 as int == u && es.last().1 as int == v {
            assert(es[es.len() - 1].2 == edge_value(es, u, v));
        } else {
            let pre = es.drop_last();
            assert(forall|m: int| 0 <= m < pre.len() ==> #[trigger] pre[m] == es[m]);
            lemma_edge_value_member(pre, u, v);
            if edge_value(pre, u, v) != E::absent() {
                let k = choose|k: int|
                    0 <= k < pre.len() && (#[trigger] pre[k]).0 as int == u && pre[k].1 as int == v
                        && pre[k].2 == edge_value(pre, u, v);
                assert(es[k] == pre[k]);
            }
        }
    }
}

/// Law: a freshly built network is ready for the max-flow loop.  Forward
/// edges with distinct pairs, no self-loops, in-range endpoints,
/// non-negative capacities and zero flows, closed under residual
/// synthesis as `built_network` states, satisfy the network
/// well-formedness `max_flow` requires; and with every flow zero, every
/// net flow row is zero, so conservation and the no-inflow-at-source
/// condition hold for any choice of endpoints.
pub proof fn lemma_built_network_ready(
    g: Graph<FlowEdge>,
    nv: usize,
    fwd: Seq<(VertexId, VertexId, FlowEdge)>,
)
    requires
        built_network(g, nv, fwd),
        distinct_pairs(fwd),
        forall|k: int| 0 <= k < fwd.len() ==> (#[trigger] fwd[k]).0 != fwd[k].1,
        forall|k: int| 0 <= k < fwd.len() ==> (#[trigger] fwd[k]).0 < nv && fwd[k].1 < nv,
        forall|k: int|
            0 <= k < fwd.len() ==> (#[trigger] fwd[k]).2.flow == 0 && fwd[k].2.capacity >= 0,
        cap_total(g) <= i32::MAX as int,
    ensures
        flow_wf(g),
        forall|u: int, v: int|
            0 <= u < g.spec_n() && 0 <= v < g.spec_n() ==> #[trigger] flow_at(g, u, v) == 0,
        forall|v: int| 0 <= v < g.spec_n() ==> #[trigger] out_flow_of(g, v) == 0,
        forall|source: VertexId, sink: VertexId| #[trigger] conserved(g, source, sink),
        forall|source: VertexId|
            (source as int) < g.spec_n() ==> #[trigger] inflow_nonpos(g, source),
{
    let n = g.spec_n();
    let full = fwd + residuals_of(fwd, 0);
    lemma_residual_shape(fwd, 0);
    let res = residuals_of(fwd, 0);
    // every member of the closed list has a zero flow, a non-negative
    // capacity, in-range distinct endpoints
    assert forall|k: int|
        0 <= k < full.len() implies (#[trigger] full[k]).2.flow == 0 && full[k].2.capacity >= 0
        && (full[k].0 as int) < n && (full[k].1 as int) < n && full[k].0 != full[k].1 by {
        if k < fwd.len() {
            assert(full[k] == fwd[k]);
        } else {
            assert(full[k] == res[k - fwd.len()]);
            let k2 = choose|k2: int|
                0 <= k2 < fwd.len() && #[trigger] res[k - fwd.len()] == (
                    fwd[k2].1,
                    fwd[k2].0,
                    FlowEdge { capacity: 0, flow: 0 },
                ) && !contains_pair(fwd, fwd[k2].1, fwd[k2].0);
            assert(fwd[k2].0 != fwd[k2].1);
        }
    }
    // no pair repeats in the closed list
    assert(distinct_pairs(full)) by {
        assert forall|m1: int, m2: int|
            0 <= m1 < m2 < full.len() implies !((#[trigger] full[m1]).0 == (
        #[trigger] full[m2]).0 && full[m1].1 == full[m2].1) by {
            if m1 < fwd.len() && m2 >= fwd.len() {
                assert(full[m1] == fwd[m1]);
                assert(full[m2] == res[m2 - fwd.len()]);
                let k2 = choose|k2: int|
                    0 <= k2 < fwd.len() && #[trigger] res[m2 - fwd.len()] == (
                        fwd[k2].1,
                        fwd[k2].0,
                        FlowEdge { capacity: 0, flow: 0 },
                    ) && !contains_pair(fwd, fwd[k2].1, fwd[k2].0);
                if full[m1].0 == full[m2].0 && full[m1].1 == full[m2].1 {
                    assert(contains_pair(fwd, fwd[k2].1, fwd[k2].0));
                }
            } else if m1 >= fwd.len() {
                assert(full[m1] == res[m1 - fwd.len()]);
                assert(full[m2] == res[m2 - fwd.len()]);
            } else {
                assert(full[m1] == fwd[m1] && full[m2] == fwd[m2]);
            }
        }
    }
    // the closed list is symmetric in its pairs
    assert forall|a: VertexId, b: VertexId|
        #[trigger] contains_pair(full, a, b) implies contains_pair(full, b, a) by {
        let k = choose|k: int| 0 <= k < full.len() && #[trigger] full[k].0 == a && full[k].1 == b;
        if k < fwd.len() {
            assert(fwd[k] == full[k]);
            if contains_pair(fwd, b, a) {
                let k2 = choose|k2: int|
                    0 <= k2 < fwd.len() && #[trigger] fwd[k2].0 == b && fwd[k2].1 == a;
                assert(full[k2] == fwd[k2]);
            } else {
                lemma_residual_complete(fwd, 0, k);
                let m = choose|m: int|
                    0 <= m < res.len() && #[trigger] res[m].0 == b && res[m].1 == a;
                assert(full[fwd.len() + m] == res[m]);
            }
        } else {
            let k2 = choose|k2: int|
                0 <= k2 < fwd.len() && #[trigger] res[k - fwd.len()] == (
                    fwd[k2].1,
                    fwd[k2].0,
                    FlowEdge { capacity: 0, flow: 0 },
                ) && !contains_pair(fwd, fwd[k2].1, fwd[k2].0);
            assert(fwd[k2].0 == b && fwd[k2].1 == a);
            assert(full[k2] == fwd[k2]);
        }
    }
    // now discharge the well-formedness clauses one by one
    assert forall|u: int, i: int, j: int|
        0 <= u < n && 0 <= i < j < g.nbs()[u].len() implies g.nbs()[u][i] != g.nbs()[u][j] by {
        assert(g.nbs()[u] == dests_of(full, u));
        lemma_dests_distinct(full, u);
    }
    assert forall|u: int, v: int|
        0 <= u < n && 0 <= v < n implies (#[trigger] nb_has(g, u, v) <==> nb_has(g, v, u)) by {
        assert(g.nbs()[u] == dests_of(full, u));
        assert(g.nbs()[v] == dests_of(full, v));
        lemma_dests_iff_pair(full, u, v as usize);
        lemma_dests_iff_pair(full, v, u as usize);
        if contains_pair(full, u as usize, v as usize) {
            assert(contains_pair(full, v as usize, u as usize));
        }
        if contains_pair(full, v as usize, u as usize) {
            assert(contains_pair(full, u as usize, v as usize));
        }
    }
    assert forall|u: int, v: int|
        0 <= u < n && 0 <= v < n && !nb_has(g, u, v) implies #[trigger] g.mat()[u][v] == (FlowEdge {
            capacity: 0,
            flow: 0,
        }) by {
        assert(g.nbs()[u] == dests_of(full, u));
        lemma_dests_iff_pair(full, u, v as usize);
        lemma_absent_when_no_pair(full, u as usize, v as usize);
        assert(g.mat()[u][v] == edge_value(full, u, v));
    }
    assert forall|u: int, v: int|
        0 <= u < n && 0 <= v < n implies #[trigger] flow_at(g, u, v) == 0 && 0 <= cap_at(
        g,
        u,
        v,
    ) by {
        assert(g.mat()[u][v] == edge_value(full, u, v));
        lemma_edge_value_member::<FlowEdge>(full, u, v);
    }
    assert forall|u: int| 0 <= u < n implies #[trigger] cap_at(g, u, u) == 0 by {
        assert(g.mat()[u][u] == edge_value(full, u, u));
        assert(!contains_pair(full, u as usize, u as usize)) by {
            if contains_pair(full, u as usize, u as usize) {
                let k = choose|k: int|
                    0 <= k < full.len() && #[trigger] full[k].0 == u as usize && full[k].1
                        == u as usize;
            }
        }
        lemma_absent_when_no_pair(full, u as usize, u as usize);
    }
    assert forall|u: int, v: int|
        0 <= u < n && 0 <= v < n implies #[trigger] flow_at(g, u, v) <= cap_at(g, u, v) by {
        assert(flow_at(g, u, v) == 0 && 0 <= cap_at(g, u, v));
    }
    assert forall|u: int, v: int|
        0 <= u < n && 0 <= v < n implies #[trigger] flow_at(g, u, v) == -flow_at(g, v, u) by {
        assert(flow_at(g, u, v) == 0 && flow_at(g, v, u) == 0);
    }
    assert(g.wf());
    assert(forall|u: int, i: int, j: int|
        0 <= u < n && 0 <= i < j < g.nbs()[u].len() ==> g.nbs()[u][i] != g.nbs()[u][j]);
    assert(forall|u: int, v: int|
        0 <= u < n && 0 <= v < n ==> (#[trigger] nb_has(g, u, v) <==> nb_has(g, v, u)));
    assert(forall|u: int, v: int|
        0 <= u < n && 0 <= v < n && !nb_has(g, u, v) ==> #[trigger] g.mat()[u][v] == (FlowEdge {
            capacity: 0,
            flow: 0,
        }));
    assert forall|u: int, v: int|
        0 <= u < n && 0 <= v < n implies 0 <= #[trigger] cap_at(g, u, v) by {
        assert(flow_at(g, u, v) == 0 && 0 <= cap_at(g, u, v));
    }
    assert(forall|u: int| 0 <= u < n ==> #[trigger] cap_at(g, u, u) == 0);
    assert(forall|u: int, v: int|
        0 <= u < n && 0 <= v < n ==> #[trigger] flow_at(g, u, v) <= cap_at(g, u, v));
    assert(forall|u: int, v: int|
        0 <= u < n && 0 <= v < n ==> #[trigger] flow_at(g, u, v) == -flow_at(g, v, u));
    assert(cap_total(g) <= i32::MAX as int);
    assert(flow_wf(g));
    assert forall|v: int| 0 <= v < n implies #[trigger] out_flow_of(g, v) == 0 by {
        let zn = Seq::new(
            if n >= 0 {
                n as nat
            } else {
                0
            },
            |w: int| 0int,
        );
        assert(flow_row(g, v) =~= zn);
        lemma_sum_zero(n);
    }
    assert forall|source: VertexId, sink: VertexId| #[trigger] conserved(g, source, sink) by {}
    assert forall|source: VertexId|
        (source as int) < g.spec_n() implies #[trigger] inflow_nonpos(g, source) by {}
}

} // verus!
