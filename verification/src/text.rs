//! The plain-text graph format.
//!
//! The grammar is a header `"<n> <m>"` followed by `m` pairs `"<from> <to>"`,
//! all whitespace-separated unsigned decimal integers, with caller-selectable
//! 0-based or 1-based vertex indexing.  The functions here work on the UTF-8
//! bytes of the input, so the contracts speak of `spec_bytes` of the string.

use vstd::prelude::*;
use vstd::string::*;

use crate::error::GraphError;

verus! {

/// ASCII whitespace, exactly the bytes `split_ascii_whitespace` splits on.
pub open spec fn spec_is_ws(b: u8) -> bool {
    b == 32 || b == 9 || b == 10 || b == 12 || b == 13
}

pub open spec fn spec_is_digit(b: u8) -> bool {
    48 <= b <= 57
}

/// Length of the maximal non-whitespace prefix.
pub open spec fn spec_token_len(s: Seq<u8>) -> nat
    decreases s.len(),
{
    if s.len() == 0 || spec_is_ws(s[0]) {
        0
    } else {
        1 + spec_token_len(s.drop_first())
    }
}

pub proof fn lemma_token_len_le(s: Seq<u8>)
    ensures
        spec_token_len(s) <= s.len(),
    decreases s.len(),
{
    if s.len() > 0 && !spec_is_ws(s[0]) {
        lemma_token_len_le(s.drop_first());
    }
}

#[via_fn]
proof fn spec_tokens_dec(s: Seq<u8>)
{
    lemma_token_len_le(s);
}

/// The whitespace-separated tokens of `s`, in order.
pub open spec fn spec_tokens(s: Seq<u8>) -> Seq<Seq<u8>>
    decreases s.len() via spec_tokens_dec
{
    if s.len() == 0 {
        Seq::empty()
    } else if spec_is_ws(s[0]) {
        spec_tokens(s.drop_first())
    } else {
        seq![s.take(spec_token_len(s) as int)] + spec_tokens(s.skip(spec_token_len(s) as int))
    }
}

/// The value of a string of decimal digits (most significant first).
pub open spec fn spec_dec_val(t: Seq<u8>) -> int
    decreases t.len(),
{
    if t.len() == 0 {
        0
    } else {
        spec_dec_val(t.drop_last()) * 10 + (t.last() - 48)
    }
}

pub open spec fn spec_all_digits(t: Seq<u8>) -> bool {
    forall|i: int| 0 <= i < t.len() ==> spec_is_digit(#[trigger] t[i])
}

/// A token with its optional leading `+` sign stripped, as `usize::from_str`
/// strips it.
pub open spec fn spec_token_body(t: Seq<u8>) -> Seq<u8> {
    if t.len() > 0 && t[0] == 43 {
        t.drop_first()
    } else {
        t
    }
}

/// What `str::parse::<usize>` makes of a token: its value, if the token is an
/// optionally `+`-signed non-empty digit string whose value fits in `usize`.
pub open spec fn spec_token_value(t: Seq<u8>) -> Option<int> {
    let d = spec_token_body(t);
    if d.len() > 0 && spec_all_digits(d) && 0 <= spec_dec_val(d) <= usize::MAX as int {
        Some(spec_dec_val(d))
    } else {
        None
    }
}

/// Reading the `i`-th number of the input: a missing token is
/// `InsufficientInput`, an unparseable one `ParseFailure`.
pub open spec fn spec_read(toks: Seq<Seq<u8>>, i: int) -> Result<usize, GraphError> {
    if i >= toks.len() {
        Err(GraphError::InsufficientInput)
    } else {
        match spec_token_value(toks[i]) {
            Some(v) => Ok(v as usize),
            None => Err(GraphError::ParseFailure),
        }
    }
}

/// The `k`-th declared edge, read from tokens `2 + 2k` and `3 + 2k`: its two
/// endpoints re-based when the input is 1-based (a zero endpoint is then
/// `InvalidEdge`), and checked against the declared vertex count.  An endpoint
/// equal to the declared count is accepted, mirroring the editor's historical
/// bounds check.
pub open spec fn spec_edge_at(toks: Seq<Seq<u8>>, n: usize, zero_indexed: bool, k: int) -> Result<
    (usize, usize),
    GraphError,
> {
    match spec_read(toks, 2 + 2 * k) {
        Err(e) => Err(e),
        Ok(f_raw) => match spec_read(toks, 3 + 2 * k) {
            Err(e) => Err(e),
            Ok(t_raw) => {
                if !zero_indexed && (f_raw == 0 || t_raw == 0) {
                    Err(GraphError::InvalidEdge)
                } else {
                    let f = if zero_indexed {
                        f_raw
                    } else {
                        (f_raw - 1) as usize
                    };
                    let t = if zero_indexed {
                        t_raw
                    } else {
                        (t_raw - 1) as usize
                    };
                    if f > n || t > n {
                        Err(GraphError::InvalidEdge)
                    } else {
                        Ok((f, t))
                    }
                }
            },
        },
    }
}

/// The declared edges from index `k` on; the first failing edge decides the
/// error.
pub open spec fn spec_edges_from(
    toks: Seq<Seq<u8>>,
    n: usize,
    zero_indexed: bool,
    m: int,
    k: int,
) -> Result<Seq<(usize, usize)>, GraphError>
    decreases m - k,
{
    if k >= m {
        Ok(Seq::empty())
    } else {
        match spec_edge_at(toks, n, zero_indexed, k) {
            Err(e) => Err(e),
            Ok(p) => match spec_edges_from(toks, n, zero_indexed, m, k + 1) {
                Err(e) => Err(e),
                Ok(rest) => Ok(seq![p] + rest),
            },
        }
    }
}

/// The parse of a token list: vertex count, edge count, the declared edges,
/// and `ExcessiveInput` if tokens remain after them.
pub open spec fn spec_parse_tokens(toks: Seq<Seq<u8>>, zero_indexed: bool) -> Result<
    (usize, Seq<(usize, usize)>),
    GraphError,
> {
    match spec_read(toks, 0) {
        Err(e) => Err(e),
        Ok(n) => match spec_read(toks, 1) {
            Err(e) => Err(e),
            Ok(m) => match spec_edges_from(toks, n, zero_indexed, m as int, 0) {
                Err(e) => Err(e),
                Ok(es) => if toks.len() > 2 + 2 * (m as int) {
                    Err(GraphError::ExcessiveInput)
                } else {
                    Ok((n, es))
                },
            },
        },
    }
}

/// The parse of a byte string.
pub open spec fn spec_parse(s: Seq<u8>, zero_indexed: bool) -> Result<
    (usize, Seq<(usize, usize)>),
    GraphError,
> {
    spec_parse_tokens(spec_tokens(s), zero_indexed)
}

fn is_ws(b: u8) -> (r: bool)
    ensures
        r == spec_is_ws(b),
{
    b == 32 || b == 9 || b == 10 || b == 12 || b == 13
}

/// A maximal run of non-whitespace starting at `s[0]` and checked off up to a
/// whitespace byte (or the end) has exactly the spec token length.
proof fn lemma_token_len_exact(s: Seq<u8>, k: int)
    requires
        0 <= k <= s.len(),
        forall|l: int| 0 <= l < k ==> !spec_is_ws(#[trigger] s[l]),
        k == s.len() || spec_is_ws(s[k]),
    ensures
        spec_token_len(s) == k,
    decreases k,
{
    if k > 0 {
        assert(forall|l: int| 0 <= l < k - 1 ==> s.drop_first()[l] == s[l + 1]);
        lemma_token_len_exact(s.drop_first(), k - 1);
    }
}

/// The whitespace-separated tokens of `bytes`, in order, as owned vectors.
pub fn tokenize(bytes: &[u8]) -> (r: Vec<Vec<u8>>)
    ensures
        r@.map_values(|t: Vec<u8>| t@) == spec_tokens(bytes@),
{
    let n = bytes.len();
    let mut toks: Vec<Vec<u8>> = Vec::new();
    let mut i: usize = 0;
    proof {
        assert(bytes@.skip(0) =~= bytes@);
    }
    while i < n
        invariant
            i <= n,
            n == bytes@.len(),
            spec_tokens(bytes@) == toks@.map_values(|t: Vec<u8>| t@) + spec_tokens(
                bytes@.skip(i as int),
            ),
        decreases n - i,
    {
        if is_ws(bytes[i]) {
            proof {
                assert(bytes@.skip(i as int).drop_first() =~= bytes@.skip(i + 1));
            }
            i = i + 1;
        } else {
            let start = i;
            while i < n && !is_ws(bytes[i])
                invariant
                    start <= i <= n,
                    n == bytes@.len(),
                    forall|l: int| start <= l < i ==> !spec_is_ws(#[trigger] bytes@[l]),
                decreases n - i,
            {
                i = i + 1;
            }
            let mut tok: Vec<u8> = Vec::new();
            let mut j = start;
            while j < i
                invariant
                    start <= j <= i <= n,
                    n == bytes@.len(),
                    tok@ == bytes@.subrange(start as int, j as int),
                decreases i - j,
            {
                tok.push(bytes[j]);
                proof {
                    assert(bytes@.subrange(start as int, j + 1) =~= bytes@.subrange(
                        start as int,
                        j as int,
                    ).push(bytes@[j as int]));
                }
                j = j + 1;
            }
            proof {
                let rest = bytes@.skip(start as int);
                assert(forall|l: int| 0 <= l < i - start ==> rest[l] == bytes@[start + l]);
                if i < n {
                    assert(rest[i - start] == bytes@[i as int]);
                }
                lemma_token_len_exact(rest, i - start);
                assert(rest.take(i - start) =~= bytes@.subrange(start as int, i as int));
                assert(rest.skip(i - start) =~= bytes@.skip(i as int));
                let f = |t: Vec<u8>| t@;
                assert(toks@.push(tok).map_values(f) =~= toks@.map_values(f).push(tok@));
                assert(spec_tokens(rest) == seq![tok@] + spec_tokens(bytes@.skip(i as int)));
                assert(toks@.map_values(f).push(tok@) + spec_tokens(bytes@.skip(i as int))
                    =~= toks@.map_values(f) + spec_tokens(rest));
            }
            toks.push(tok);
        }
    }
    proof {
        assert(bytes@.skip(n as int) =~= Seq::<u8>::empty());
    }
    toks
}

pub proof fn lemma_dec_val_nonneg(t: Seq<u8>)
    requires
        spec_all_digits(t),
    ensures
        spec_dec_val(t) >= 0,
    decreases t.len(),
{
    if t.len() > 0 {
        assert(forall|l: int| 0 <= l < t.len() - 1 ==> t.drop_last()[l] == t[l]);
        lemma_dec_val_nonneg(t.drop_last());
    }
}

/// Extending a digit string only grows its value.
proof fn lemma_dec_val_prefix_le(t: Seq<u8>, k: int)
    requires
        spec_all_digits(t),
        0 <= k <= t.len(),
    ensures
        spec_dec_val(t.take(k)) <= spec_dec_val(t),
    decreases t.len() - k,
{
    if k < t.len() {
        lemma_dec_val_prefix_le(t, k + 1);
        assert(t.take(k + 1).drop_last() =~= t.take(k));
        assert(forall|l: int| 0 <= l < k + 1 ==> t.take(k + 1)[l] == t[l]);
        lemma_dec_val_nonneg(t.take(k));
    } else {
        assert(t.take(k) =~= t);
    }
}

/// What `str::parse::<usize>` returns on a token, written out: `Some` exactly
/// for an optionally `+`-signed non-empty digit string whose value fits.
pub fn parse_usize_token(t: &[u8]) -> (r: Option<usize>)
    ensures
        r matches Some(v) ==> spec_token_value(t@) == Some(v as int),
        r is None ==> spec_token_value(t@) is None,
{
    let len = t.len();
    let start: usize = if len > 0 && t[0] == 43 {
        1
    } else {
        0
    };
    proof {
        assert(spec_token_body(t@) =~= t@.skip(start as int));
    }
    if len == start {
        return None;
    }
    let ghost body = t@.skip(start as int);
    let mut val: usize = 0;
    let mut i = start;
    while i < len
        invariant
            start <= i <= len,
            len == t@.len(),
            body == t@.skip(start as int),
            spec_token_body(t@) == body,
            spec_all_digits(body.take(i - start)),
            val == spec_dec_val(body.take(i - start)),
        decreases len - i,
    {
        let b = t[i];
        proof {
            assert(body[i - start] == t@[i as int]);
            assert(body.take(i - start + 1).drop_last() =~= body.take(i - start));
        }
        if !(48 <= b && b <= 57) {
            proof {
                assert(spec_token_body(t@) == body);
                assert(body[i - start] == b);
                assert(!spec_is_digit(body[i - start]));
            }
            return None;
        }
        let d = (b - 48) as usize;
        if val > (usize::MAX - d) / 10 {
            proof {
                assert(spec_dec_val(body.take(i - start + 1)) == val * 10 + d);
                assert(val * 10 + d > usize::MAX) by (nonlinear_arith)
                    requires
                        val > (usize::MAX - d) / 10,
                        d <= 9,
                ;
                if spec_all_digits(body) {
                    lemma_dec_val_prefix_le(body, i - start + 1);
                }
            }
            return None;
        }
        proof {
            assert(val * 10 + d <= usize::MAX) by (nonlinear_arith)
                requires
                    val <= (usize::MAX - d) / 10,
                    d <= 9,
            ;
        }
        val = val * 10 + d;
        i = i + 1;
    }
    proof {
        assert(body.take(len - start) =~= body);
    }
    Some(val)
}

/// Reading the `i`-th number of a token list.
pub fn read_token(toks: &Vec<Vec<u8>>, i: usize) -> (r: Result<usize, GraphError>)
    ensures
        r == spec_read(toks@.map_values(|t: Vec<u8>| t@), i as int),
{
    if i >= toks.len() {
        Err(GraphError::InsufficientInput)
    } else {
        proof {
            assert(toks@.map_values(|t: Vec<u8>| t@)[i as int] == toks@[i as int]@);
        }
        match parse_usize_token(toks[i].as_slice()) {
            Some(v) => Ok(v),
            None => Err(GraphError::ParseFailure),
        }
    }
}

/// Parses the plain-text graph format from the raw bytes of the input:
/// a vertex count, an edge count, and that many edges, re-based if the input
/// is 1-based, with every violation reported as the error the grammar assigns
/// to it and nothing else.
pub fn parse_graph_bytes(bytes: &[u8], zero_indexed: bool) -> (r: Result<
    (usize, Vec<(usize, usize)>),
    GraphError,
>)
    ensures
        r matches Ok(p) ==> spec_parse(bytes@, zero_indexed) == Ok::<_, GraphError>(
            (p.0, p.1@),
        ),
        r matches Err(e) ==> spec_parse(bytes@, zero_indexed) == Err::<
            (usize, Seq<(usize, usize)>),
            _,
        >(e),
{
    let toks = tokenize(bytes);
    let ghost tv = toks@.map_values(|t: Vec<u8>| t@);
    let n = match read_token(&toks, 0) {
        Ok(v) => v,
        Err(e) => {
            return Err(e);
        },
    };
    let m = match read_token(&toks, 1) {
        Ok(v) => v,
        Err(e) => {
            return Err(e);
        },
    };
    let mut edges: Vec<(usize, usize)> = Vec::new();
    let mut idx: usize = 2;
    let tlen = toks.len();
    for k in 0..m
        invariant
            tv == toks@.map_values(|t: Vec<u8>| t@),
            tv == spec_tokens(bytes@),
            tlen == tv.len(),
            spec_read(tv, 0) == Ok::<usize, GraphError>(n),
            spec_read(tv, 1) == Ok::<usize, GraphError>(m),
            idx as int == 2 + 2 * (k as int),
            idx <= tv.len() + 2,
            edges@.len() == k,
            spec_edges_from(tv, n, zero_indexed, m as int, 0) == (match spec_edges_from(
                tv,
                n,
                zero_indexed,
                m as int,
                k as int,
            ) {
                Ok(rest) => Ok::<Seq<(usize, usize)>, GraphError>(edges@ + rest),
                Err(e) => Err::<Seq<(usize, usize)>, GraphError>(e),
            }),
    {
        let f_raw = match read_token(&toks, idx) {
            Ok(v) => v,
            Err(e) => {
                proof {
                    assert(spec_edge_at(tv, n, zero_indexed, k as int) == Err::<
                        (usize, usize),
                        GraphError,
                    >(e));
                    assert(spec_edges_from(tv, n, zero_indexed, m as int, k as int) == Err::<
                        Seq<(usize, usize)>,
                        GraphError,
                    >(e));
                }
                return Err(e);
            },
        };
        let t_raw = match read_token(&toks, idx + 1) {
            Ok(v) => v,
            Err(e) => {
                proof {
                    assert(spec_edge_at(tv, n, zero_indexed, k as int) == Err::<
                        (usize, usize),
                        GraphError,
                    >(e));
                    assert(spec_edges_from(tv, n, zero_indexed, m as int, k as int) == Err::<
                        Seq<(usize, usize)>,
                        GraphError,
                    >(e));
                }
                return Err(e);
            },
        };
        if !zero_indexed && (f_raw == 0 || t_raw == 0) {
            proof {
                assert(spec_edge_at(tv, n, zero_indexed, k as int) == Err::<
                    (usize, usize),
                    GraphError,
                >(GraphError::InvalidEdge));
                assert(spec_edges_from(tv, n, zero_indexed, m as int, k as int) == Err::<
                    Seq<(usize, usize)>,
                    GraphError,
                >(GraphError::InvalidEdge));
            }
            return Err(GraphError::InvalidEdge);
        }
        let f = if zero_indexed {
            f_raw
        } else {
            f_raw - 1
        };
        let t = if zero_indexed {
            t_raw
        } else {
            t_raw - 1
        };
        if f > n || t > n {
            proof {
                assert(spec_edge_at(tv, n, zero_indexed, k as int) == Err::<
                    (usize, usize),
                    GraphError,
                >(GraphError::InvalidEdge));
                assert(spec_edges_from(tv, n, zero_indexed, m as int, k as int) == Err::<
                    Seq<(usize, usize)>,
                    GraphError,
                >(GraphError::InvalidEdge));
            }
            return Err(GraphError::InvalidEdge);
        }
        proof {
            assert(spec_edge_at(tv, n, zero_indexed, k as int) == Ok::<(usize, usize), GraphError>(
                (f, t),
            ));
            match spec_edges_from(tv, n, zero_indexed, m as int, k + 1) {
                Ok(rest) => {
                    assert(edges@ + (seq![(f, t)] + rest) =~= edges@.push((f, t)) + rest);
                },
                Err(e) => {},
            }
        }
        proof {
            assert(idx + 1 < tlen);
        }
        edges.push((f, t));
        idx = idx + 2;
    }
    proof {
        assert(spec_edges_from(tv, n, zero_indexed, m as int, m as int) == Ok::<
            Seq<(usize, usize)>,
            GraphError,
        >(Seq::empty()));
        assert(edges@ + Seq::<(usize, usize)>::empty() =~= edges@);
    }
    let tl = toks.len();
    proof {
        assert(tv.len() == tl);
        if m > (usize::MAX - 2) / 2 {
            assert(2 + 2 * (m as int) > tv.len());
        }
    }
    if m <= (usize::MAX - 2) / 2 {
        if tl > 2 + 2 * m {
            return Err(GraphError::ExcessiveInput);
        }
    }
    Ok((n, edges))
}

/// The character for one decimal digit.
pub open spec fn spec_digit_char(d: int) -> char {
    ((48 + d) as u8) as char
}

/// The decimal digits of a non-negative number, most significant first.
pub open spec fn spec_dec_chars(x: int) -> Seq<char>
    decreases x,
{
    if x < 10 {
        seq![spec_digit_char(x)]
    } else {
        spec_dec_chars(x / 10).push(spec_digit_char(x % 10))
    }
}

/// One encoded edge line: a newline, then the two endpoints, re-based for
/// 1-based output.
pub open spec fn spec_encode_pair(p: (usize, usize), zero_indexed: bool) -> Seq<char> {
    let f = if zero_indexed {
        p.0 as int
    } else {
        p.0 + 1
    };
    let t = if zero_indexed {
        p.1 as int
    } else {
        p.1 + 1
    };
    seq!['\n'] + spec_dec_chars(f) + seq![' '] + spec_dec_chars(t)
}

pub open spec fn spec_encode_pairs(ps: Seq<(usize, usize)>, zero_indexed: bool) -> Seq<char>
    decreases ps.len(),
{
    if ps.len() == 0 {
        Seq::empty()
    } else {
        spec_encode_pair(ps[0], zero_indexed) + spec_encode_pairs(ps.drop_first(), zero_indexed)
    }
}

/// The encoded text of a graph: the header `"<n> <m>"` and one line per edge.
pub open spec fn spec_encode(n: usize, ps: Seq<(usize, usize)>, zero_indexed: bool) -> Seq<char> {
    spec_dec_chars(n as int) + seq![' '] + spec_dec_chars(ps.len() as int) + spec_encode_pairs(
        ps,
        zero_indexed,
    )
}

fn digit_str(d: u8) -> (r: &'static str)
    requires
        d < 10,
    ensures
        r@ =~= seq![spec_digit_char(d as int)],
{
    proof {
        reveal_strlit("0");
        reveal_strlit("1");
        reveal_strlit("2");
        reveal_strlit("3");
        reveal_strlit("4");
        reveal_strlit("5");
        reveal_strlit("6");
        reveal_strlit("7");
        reveal_strlit("8");
        reveal_strlit("9");
    }
    match d {
        0 => "0",
        1 => "1",
        2 => "2",
        3 => "3",
        4 => "4",
        5 => "5",
        6 => "6",
        7 => "7",
        8 => "8",
        _ => "9",
    }
}

/// Appends the decimal digits of `x`.
pub fn push_decimal(s: &mut String, x: usize)
    ensures
        final(s)@ == old(s)@ + spec_dec_chars(x as int),
    decreases x,
{
    if x >= 10 {
        push_decimal(s, x / 10);
        let d = (x % 10) as u8;
        s.append(digit_str(d));
        proof {
            assert(final(s)@ =~= old(s)@ + spec_dec_chars(x as int));
        }
    } else {
        let d = x as u8;
        s.append(digit_str(d));
        proof {
            assert(final(s)@ =~= old(s)@ + spec_dec_chars(x as int));
        }
    }
}

/// Writes the plain-text form of a graph with `n` vertices and the given edge
/// pairs, 0-based or 1-based as requested.
pub fn encode_graph_text(n: usize, pairs: &Vec<(usize, usize)>, zero_indexed: bool) -> (r: String)
    requires
        zero_indexed || forall|k: int|
            0 <= k < pairs@.len() ==> (#[trigger] pairs@[k]).0 < usize::MAX && pairs@[k].1
                < usize::MAX,
    ensures
        r@ == spec_encode(n, pairs@, zero_indexed),
{
    let mut s = String::new();
    push_decimal(&mut s, n);
    s.append(" ");
    let m = pairs.len();
    push_decimal(&mut s, m);
    proof {
        reveal_strlit(" ");
        assert(pairs@.skip(0) =~= pairs@);
        assert(s@ + spec_encode_pairs(pairs@.skip(0), zero_indexed) =~= spec_encode(
            n,
            pairs@,
            zero_indexed,
        ));
    }
    for i in 0..m
        invariant
            m == pairs@.len(),
            zero_indexed || forall|k: int|
                0 <= k < pairs@.len() ==> (#[trigger] pairs@[k]).0 < usize::MAX && pairs@[k].1
                    < usize::MAX,
            s@ + spec_encode_pairs(pairs@.skip(i as int), zero_indexed) == spec_encode(
                n,
                pairs@,
                zero_indexed,
            ),
    {
        let p = pairs[i];
        let f = if zero_indexed {
            p.0
        } else {
            p.0 + 1
        };
        let t = if zero_indexed {
            p.1
        } else {
            p.1 + 1
        };
        let ghost s0 = s@;
        s.append("\n");
        push_decimal(&mut s, f);
        s.append(" ");
        push_decimal(&mut s, t);
        proof {
            reveal_strlit(" ");
            reveal_strlit("\n");
            assert(pairs@.skip(i as int)[0] == p);
            assert(pairs@.skip(i as int).drop_first() =~= pairs@.skip(i + 1));
            assert(s@ =~= s0 + spec_encode_pair(p, zero_indexed));
            assert(s@ + spec_encode_pairs(pairs@.skip(i + 1), zero_indexed) =~= s0
                + spec_encode_pairs(pairs@.skip(i as int), zero_indexed));
        }
    }
    proof {
        assert(pairs@.skip(m as int) =~= Seq::<(usize, usize)>::empty());
        assert(s@ + spec_encode_pairs(pairs@.skip(m as int), zero_indexed) =~= s@);
    }
    s
}

/// The UTF-8 bytes of an all-ASCII character sequence, character for character.
pub open spec fn spec_ascii_of(cs: Seq<char>) -> Seq<u8> {
    cs.map_values(|c: char| c as u8)
}

/// The decimal digits of `x`, as bytes.
pub open spec fn spec_dec_bytes(x: int) -> Seq<u8> {
    spec_ascii_of(spec_dec_chars(x))
}

proof fn lemma_dec_bytes_digits(x: int)
    requires
        0 <= x,
    ensures
        spec_dec_bytes(x).len() >= 1,
        spec_all_digits(spec_dec_bytes(x)),
        spec_dec_bytes(x)[0] != 43,
    decreases x,
{
    if x < 10 {
        assert(spec_dec_bytes(x) =~= seq![(48 + x) as u8]);
    } else {
        lemma_dec_bytes_digits(x / 10);
        assert(spec_dec_bytes(x) =~= spec_dec_bytes(x / 10).push((48 + x % 10) as u8));
        assert forall|i: int| 0 <= i < spec_dec_bytes(x).len() implies spec_is_digit(
            #[trigger] spec_dec_bytes(x)[i],
        ) by {
            if i < spec_dec_bytes(x / 10).len() {
                assert(spec_dec_bytes(x)[i] == spec_dec_bytes(x / 10)[i]);
            }
        }
    }
}

proof fn lemma_dec_bytes_value(x: int)
    requires
        0 <= x,
    ensures
        spec_dec_val(spec_dec_bytes(x)) == x,
    decreases x,
{
    if x < 10 {
        let s = spec_dec_bytes(x);
        assert(s =~= seq![(48 + x) as u8]);
        assert(s.drop_last() =~= Seq::<u8>::empty());
        assert(s.last() == (48 + x) as u8);
        assert(spec_dec_val(s) == spec_dec_val(s.drop_last()) * 10 + (s.last() - 48));
        assert(spec_dec_val(s.drop_last()) == 0);
    } else {
        lemma_dec_bytes_value(x / 10);
        vstd::arithmetic::div_mod::lemma_fundamental_div_mod(x, 10);
        let s = spec_dec_bytes(x);
        assert(s =~= spec_dec_bytes(x / 10).push((48 + x % 10) as u8));
        assert(s.drop_last() =~= spec_dec_bytes(x / 10));
        assert(s.len() > 0);
        assert(s.last() == (48 + x % 10) as u8);
        assert(spec_dec_val(s) == spec_dec_val(s.drop_last()) * 10 + (s.last() - 48));
        assert(spec_dec_val(s.drop_last()) == x / 10);
        assert(x == 10 * (x / 10) + x % 10);
    }
}

/// The parse of a digit token written by the encoder is its number.
proof fn lemma_dec_bytes_token(x: int)
    requires
        0 <= x <= usize::MAX,
    ensures
        spec_token_value(spec_dec_bytes(x)) == Some(x),
{
    lemma_dec_bytes_digits(x);
    lemma_dec_bytes_value(x);
    assert(spec_token_body(spec_dec_bytes(x)) == spec_dec_bytes(x));
}

/// Splitting at a whitespace byte: the tokens after it are the tokens of the
/// rest.
proof fn lemma_tokens_ws(b: u8, rest: Seq<u8>)
    requires
        spec_is_ws(b),
    ensures
        spec_tokens(seq![b] + rest) == spec_tokens(rest),
{
    let s = seq![b] + rest;
    assert(s[0] == b);
    assert(s.drop_first() =~= rest);
}

/// A non-empty run of non-whitespace followed by nothing or by whitespace is
/// one token, and scanning continues after it.
proof fn lemma_tokens_step(tok: Seq<u8>, rest: Seq<u8>)
    requires
        tok.len() > 0,
        forall|l: int| 0 <= l < tok.len() ==> !spec_is_ws(#[trigger] tok[l]),
        rest.len() == 0 || spec_is_ws(rest[0]),
    ensures
        spec_tokens(tok + rest) == seq![tok] + spec_tokens(rest),
{
    let s = tok + rest;
    assert(forall|l: int| 0 <= l < tok.len() ==> s[l] == tok[l]);
    if rest.len() > 0 {
        assert(s[tok.len() as int] == rest[0]);
    }
    lemma_token_len_exact(s, tok.len() as int);
    assert(s.take(tok.len() as int) =~= tok);
    assert(s.skip(tok.len() as int) =~= rest);
}

/// The token pair written for one edge.
pub open spec fn spec_pair_tokens(ps: Seq<(usize, usize)>, zero_indexed: bool) -> Seq<Seq<u8>>
    decreases ps.len(),
{
    if ps.len() == 0 {
        Seq::empty()
    } else {
        let p = ps[0];
        let f = if zero_indexed {
            p.0 as int
        } else {
            p.0 + 1
        };
        let t = if zero_indexed {
            p.1 as int
        } else {
            p.1 + 1
        };
        seq![spec_dec_bytes(f), spec_dec_bytes(t)] + spec_pair_tokens(ps.drop_first(), zero_indexed)
    }
}

/// All digits are non-whitespace.
proof fn lemma_digits_not_ws(t: Seq<u8>)
    requires
        spec_all_digits(t),
    ensures
        forall|l: int| 0 <= l < t.len() ==> !spec_is_ws(#[trigger] t[l]),
{
}

/// The encoded edge lines tokenize to the written token pairs.
proof fn lemma_tokens_of_pairs(ps: Seq<(usize, usize)>, zero_indexed: bool)
    ensures
        spec_tokens(spec_ascii_of(spec_encode_pairs(ps, zero_indexed))) == spec_pair_tokens(
            ps,
            zero_indexed,
        ),
    decreases ps.len(),
{
    if ps.len() == 0 {
        assert(spec_ascii_of(spec_encode_pairs(ps, zero_indexed)) =~= Seq::<u8>::empty());
    } else {
        let p = ps[0];
        let f = if zero_indexed {
            p.0 as int
        } else {
            p.0 + 1
        };
        let t = if zero_indexed {
            p.1 as int
        } else {
            p.1 + 1
        };
        lemma_tokens_of_pairs(ps.drop_first(), zero_indexed);
        lemma_dec_bytes_digits(f);
        lemma_dec_bytes_digits(t);
        lemma_digits_not_ws(spec_dec_bytes(f));
        lemma_digits_not_ws(spec_dec_bytes(t));
        let tail = spec_ascii_of(spec_encode_pairs(ps.drop_first(), zero_indexed));
        if ps.drop_first().len() > 0 {
            assert(spec_encode_pairs(ps.drop_first(), zero_indexed)[0] == '\n');
            assert(tail[0] == 10);
        }
        let rest2 = spec_dec_bytes(t) + tail;
        let rest1 = seq![32u8] + rest2;
        let body = spec_dec_bytes(f) + rest1;
        assert(spec_ascii_of(spec_encode_pairs(ps, zero_indexed)) =~= seq![10u8] + body);
        lemma_tokens_ws(10, body);
        lemma_tokens_step(spec_dec_bytes(f), rest1);
        lemma_tokens_ws(32, rest2);
        assert(tail.len() == 0 || spec_is_ws(tail[0]));
        lemma_tokens_step(spec_dec_bytes(t), tail);
        assert(seq![spec_dec_bytes(f)] + (seq![spec_dec_bytes(t)] + spec_pair_tokens(
            ps.drop_first(),
            zero_indexed,
        )) =~= spec_pair_tokens(ps, zero_indexed));
    }
}

/// The whole encoded text tokenizes to the two header tokens followed by the
/// edge token pairs.
proof fn lemma_tokens_of_encode(n: usize, ps: Seq<(usize, usize)>, zero_indexed: bool)
    ensures
        spec_tokens(spec_ascii_of(spec_encode(n, ps, zero_indexed))) == seq![
            spec_dec_bytes(n as int),
            spec_dec_bytes(ps.len() as int),
        ] + spec_pair_tokens(ps, zero_indexed),
{
    lemma_tokens_of_pairs(ps, zero_indexed);
    lemma_dec_bytes_digits(n as int);
    lemma_dec_bytes_digits(ps.len() as int);
    lemma_digits_not_ws(spec_dec_bytes(n as int));
    lemma_digits_not_ws(spec_dec_bytes(ps.len() as int));
    let tail = spec_ascii_of(spec_encode_pairs(ps, zero_indexed));
    if ps.len() > 0 {
        assert(spec_encode_pairs(ps, zero_indexed)[0] == '\n');
        assert(tail[0] == 10);
    }
    let rest2 = spec_dec_bytes(ps.len() as int) + tail;
    let rest1 = seq![32u8] + rest2;
    assert(spec_ascii_of(spec_encode(n, ps, zero_indexed)) =~= spec_dec_bytes(n as int) + rest1);
    lemma_tokens_step(spec_dec_bytes(n as int), rest1);
    lemma_tokens_ws(32, rest2);
    assert(tail.len() == 0 || spec_is_ws(tail[0]));
    lemma_tokens_step(spec_dec_bytes(ps.len() as int), tail);
    assert(seq![spec_dec_bytes(n as int)] + (seq![spec_dec_bytes(ps.len() as int)]
        + spec_pair_tokens(ps, zero_indexed)) =~= seq![
        spec_dec_bytes(n as int),
        spec_dec_bytes(ps.len() as int),
    ] + spec_pair_tokens(ps, zero_indexed));
}

proof fn lemma_pair_tokens_shape(ps: Seq<(usize, usize)>, zero_indexed: bool)
    ensures
        spec_pair_tokens(ps, zero_indexed).len() == 2 * ps.len(),
        forall|k: int|
            0 <= k < ps.len() ==> {
                let p = #[trigger] ps[k];
                let f = if zero_indexed {
                    p.0 as int
                } else {
                    p.0 + 1
                };
                let t = if zero_indexed {
                    p.1 as int
                } else {
                    p.1 + 1
                };
                spec_pair_tokens(ps, zero_indexed)[2 * k] == spec_dec_bytes(f)
                    && spec_pair_tokens(ps, zero_indexed)[2 * k + 1] == spec_dec_bytes(t)
            },
    decreases ps.len(),
{
    if ps.len() > 0 {
        lemma_pair_tokens_shape(ps.drop_first(), zero_indexed);
        assert forall|k: int| 0 <= k < ps.len() implies {
            let p = #[trigger] ps[k];
            let f = if zero_indexed {
                p.0 as int
            } else {
                p.0 + 1
            };
            let t = if zero_indexed {
                p.1 as int
            } else {
                p.1 + 1
            };
            spec_pair_tokens(ps, zero_indexed)[2 * k] == spec_dec_bytes(f) && spec_pair_tokens(
                ps,
                zero_indexed,
            )[2 * k + 1] == spec_dec_bytes(t)
        } by {
            if k > 0 {
                assert(ps.drop_first()[k - 1] == ps[k]);
                assert(spec_pair_tokens(ps, zero_indexed)[2 * k] == spec_pair_tokens(
                    ps.drop_first(),
                    zero_indexed,
                )[2 * (k - 1)]);
                assert(spec_pair_tokens(ps, zero_indexed)[2 * k + 1] == spec_pair_tokens(
                    ps.drop_first(),
                    zero_indexed,
                )[2 * (k - 1) + 1]);
            }
        }
    }
}

proof fn lemma_edges_of_encoded_tokens(
    toks: Seq<Seq<u8>>,
    ps: Seq<(usize, usize)>,
    n: usize,
    zero_indexed: bool,
    k: int,
)
    requires
        0 <= k <= ps.len(),
        ps.len() <= usize::MAX,
        n <= usize::MAX,
        forall|k2: int| 0 <= k2 < ps.len() ==> (#[trigger] ps[k2]).0 < n && ps[k2].1 < n,
        toks == seq![spec_dec_bytes(n as int), spec_dec_bytes(ps.len() as int)] + spec_pair_tokens(
            ps,
            zero_indexed,
        ),
    ensures
        spec_edges_from(toks, n, zero_indexed, ps.len() as int, k) == Ok::<_, GraphError>(
            ps.skip(k),
        ),
    decreases ps.len() - k,
{
    lemma_pair_tokens_shape(ps, zero_indexed);
    if k >= ps.len() {
        assert(ps.skip(k) =~= Seq::<(usize, usize)>::empty());
    } else {
        lemma_edges_of_encoded_tokens(toks, ps, n, zero_indexed, k + 1);
        let p = ps[k];
        let f = if zero_indexed {
            p.0 as int
        } else {
            p.0 + 1
        };
        let t = if zero_indexed {
            p.1 as int
        } else {
            p.1 + 1
        };
        assert(toks[2 + 2 * k] == spec_pair_tokens(ps, zero_indexed)[2 * k]);
        assert(toks[3 + 2 * k] == spec_pair_tokens(ps, zero_indexed)[2 * k + 1]);
        lemma_dec_bytes_token(f);
        lemma_dec_bytes_token(t);
        assert(spec_read(toks, 2 + 2 * k) == Ok::<usize, GraphError>(f as usize));
        assert(spec_read(toks, 3 + 2 * k) == Ok::<usize, GraphError>(t as usize));
        assert(spec_edge_at(toks, n, zero_indexed, k) == Ok::<(usize, usize), GraphError>(p));
        assert(seq![p] + ps.skip(k + 1) =~= ps.skip(k));
    }
}

/// Law: the decoder undoes the encoder.  For any vertex count and any edge
/// list whose endpoints are in range, parsing the encoded text — under the
/// same indexing base — yields exactly the same vertex count and edge list.
pub proof fn lemma_parse_of_encode(n: usize, ps: Seq<(usize, usize)>, zero_indexed: bool)
    requires
        ps.len() <= usize::MAX,
        forall|k: int| 0 <= k < ps.len() ==> (#[trigger] ps[k]).0 < n && ps[k].1 < n,
    ensures
        spec_parse(spec_ascii_of(spec_encode(n, ps, zero_indexed)), zero_indexed) == Ok::<
            _,
            GraphError,
        >((n, ps)),
{
    lemma_tokens_of_encode(n, ps, zero_indexed);
    let toks = seq![spec_dec_bytes(n as int), spec_dec_bytes(ps.len() as int)] + spec_pair_tokens(
        ps,
        zero_indexed,
    );
    lemma_dec_bytes_token(n as int);
    lemma_dec_bytes_token(ps.len() as int);
    lemma_pair_tokens_shape(ps, zero_indexed);
    assert(spec_read(toks, 0) == Ok::<usize, GraphError>(n));
    assert(spec_read(toks, 1) == Ok::<usize, GraphError>(ps.len() as usize));
    lemma_edges_of_encoded_tokens(toks, ps, n, zero_indexed, 0);
    assert(ps.skip(0) =~= ps);
    assert(toks.len() == 2 + 2 * ps.len());
}

/// Everything the encoder writes is ASCII.
pub proof fn lemma_encode_is_ascii(n: usize, ps: Seq<(usize, usize)>, zero_indexed: bool)
    ensures
        vstd::utf8::is_ascii_chars(spec_encode(n, ps, zero_indexed)),
{
    lemma_dec_chars_ascii(n as int);
    lemma_dec_chars_ascii(ps.len() as int);
    lemma_encode_pairs_ascii(ps, zero_indexed);
    let s = spec_encode(n, ps, zero_indexed);
    assert forall|i: int| 0 <= i < s.len() implies '\0' <= #[trigger] s[i] <= '\u{7f}' by {
        let a = spec_dec_chars(n as int);
        let b = spec_dec_chars(ps.len() as int);
        if i < a.len() {
            assert(s[i] == a[i]);
        } else if i == a.len() {
            assert(s[i] == ' ');
        } else if i < a.len() + 1 + b.len() {
            assert(s[i] == b[i - a.len() - 1]);
        } else {
            assert(s[i] == spec_encode_pairs(ps, zero_indexed)[i - a.len() - 1 - b.len()]);
        }
    }
}

proof fn lemma_dec_chars_ascii(x: int)
    requires
        0 <= x,
    ensures
        forall|i: int|
            0 <= i < spec_dec_chars(x).len() ==> '\0' <= #[trigger] spec_dec_chars(x)[i]
                <= '\u{7f}',
    decreases x,
{
    if x >= 10 {
        lemma_dec_chars_ascii(x / 10);
        assert forall|i: int| 0 <= i < spec_dec_chars(x).len() implies '\0'
            <= #[trigger] spec_dec_chars(x)[i] <= '\u{7f}' by {
            if i < spec_dec_chars(x / 10).len() {
                assert(spec_dec_chars(x)[i] == spec_dec_chars(x / 10)[i]);
            }
        }
    }
}

proof fn lemma_encode_pairs_ascii(ps: Seq<(usize, usize)>, zero_indexed: bool)
    ensures
        forall|i: int|
            0 <= i < spec_encode_pairs(ps, zero_indexed).len() ==> '\0'
                <= #[trigger] spec_encode_pairs(ps, zero_indexed)[i] <= '\u{7f}',
    decreases ps.len(),
{
    if ps.len() > 0 {
        let p = ps[0];
        let f = if zero_indexed {
            p.0 as int
        } else {
            p.0 + 1
        };
        let t = if zero_indexed {
            p.1 as int
        } else {
            p.1 + 1
        };
        lemma_encode_pairs_ascii(ps.drop_first(), zero_indexed);
        lemma_dec_chars_ascii(f);
        lemma_dec_chars_ascii(t);
        let s = spec_encode_pairs(ps, zero_indexed);
        let head = spec_encode_pair(p, zero_indexed);
        let a = spec_dec_chars(f);
        let b = spec_dec_chars(t);
        assert forall|i: int| 0 <= i < s.len() implies '\0' <= #[trigger] s[i] <= '\u{7f}' by {
            if i < head.len() {
                assert(s[i] == head[i]);
                if i == 0 {
                    assert(head[0] == '\n');
                } else if i < 1 + a.len() {
                    assert(head[i] == a[i - 1]);
                } else if i == 1 + a.len() {
                    assert(head[i] == ' ');
                } else {
                    assert(head[i] == b[i - a.len() - 2]);
                }
            } else {
                assert(s[i] == spec_encode_pairs(ps.drop_first(), zero_indexed)[i - head.len()]);
            }
        }
    }
}

/// Law: round trip through the text format.  The UTF-8 bytes of the encoded
/// text parse back, under the same indexing base, to the same vertex count
/// and the same edge list.
pub proof fn lemma_parse_round_trip(n: usize, ps: Seq<(usize, usize)>, zero_indexed: bool)
    requires
        ps.len() <= usize::MAX,
        forall|k: int| 0 <= k < ps.len() ==> (#[trigger] ps[k]).0 < n && ps[k].1 < n,
    ensures
        spec_parse(
            vstd::utf8::encode_utf8(spec_encode(n, ps, zero_indexed)),
            zero_indexed,
        ) == Ok::<_, GraphError>((n, ps)),
{
    lemma_encode_is_ascii(n, ps, zero_indexed);
    vstd::utf8::is_ascii_chars_encode_utf8(spec_encode(n, ps, zero_indexed));
    assert(vstd::utf8::encode_utf8(spec_encode(n, ps, zero_indexed)) =~= spec_ascii_of(
        spec_encode(n, ps, zero_indexed),
    ));
    lemma_parse_of_encode(n, ps, zero_indexed);
}

} // verus!
