//! The graph6 / digraph6 codec.
//!
//! The adjacency-matrix side — building the flattened bit matrix from an edge
//! list and reading it back — is this crate's own verified logic in `base`.
//! The bit-packing into the printable graph6 alphabet is done by the
//! `graph6_rs` crate behind the trusted items below; what those calls return
//! is named, never restated.

use vstd::prelude::*;
use vstd::string::*;

use crate::base::{spec_adj_bit, spec_bits_edges, BaseGraph};
use crate::error::GraphError;

verus! {

#[verifier::external_type_specification]
#[verifier::external_body]
pub struct ExIOError(graph6_rs::IOError);

/// What `graph6_rs::Graph::from_g6` decodes a string to, when it succeeds:
/// the vertex count and the flattened adjacency bit matrix.
pub uninterp spec fn g6_decoded(s: Seq<char>) -> Option<(usize, Seq<usize>)>;

/// What `graph6_rs::DiGraph::from_d6` decodes a string to, when it succeeds.
pub uninterp spec fn d6_decoded(s: Seq<char>) -> Option<(usize, Seq<usize>)>;

/// What `graph6_rs::write_graph6` writes for a given flattened adjacency bit
/// matrix, vertex count and directedness.
pub uninterp spec fn g6_string_of(bits: Seq<usize>, n: usize, is_directed: bool) -> Seq<char>;

/// Relies on graph6_rs::Graph::from_g6: the decode is a function of the
/// string alone; on success the bit vector is a full n-by-n matrix and the
/// single size byte keeps n below 193.  The excluded inputs (an empty string,
/// a leading `?`) would make the call abort.
#[verifier::external_body]
fn decode_g6(s: &str) -> (r: Result<(usize, Vec<usize>), graph6_rs::IOError>)
    requires
        s@.len() >= 1,
        s@[0] != '?',
    ensures
        (r is Ok) == (g6_decoded(s@) is Some),
        r matches Ok(p) ==> g6_decoded(s@) == Some((p.0, p.1@)) && p.1@.len() == p.0 * p.0 && p.0
            <= 192,
{
    graph6_rs::Graph::from_g6(s).map(|g| (g.n, g.bit_vec))
}

/// Relies on graph6_rs::DiGraph::from_d6: the decode is a function of the
/// string alone; on success the single size byte keeps n below 193.  Nothing
/// is assumed about the bit vector's length — a short or overlong symbol
/// stream hands back the wrong number of bits, and the caller must check it.
/// The excluded inputs (fewer than two characters, no leading `&`) would make
/// the call abort.
#[verifier::external_body]
fn decode_d6(s: &str) -> (r: Result<(usize, Vec<usize>), graph6_rs::IOError>)
    requires
        s@.len() >= 2,
        s@[0] == '&',
    ensures
        (r is Ok) == (d6_decoded(s@) is Some),
        r matches Ok(p) ==> d6_decoded(s@) == Some((p.0, p.1@)) && p.0 <= 192,
{
    graph6_rs::DiGraph::from_d6(s).map(|g| (g.n, g.bit_vec))
}

/// Relies on graph6_rs::write_graph6: the printable graph6 text is a function
/// of the matrix, the size and the directedness flag alone.  The excluded
/// inputs (a short matrix, entries above 1, an undirected size of zero, a
/// size whose length character would be no character) would make the call
/// abort.
pub assume_specification[ graph6_rs::write_graph6 ](
    bit_vec: Vec<usize>,
    n: usize,
    is_directed: bool,
) -> (r: String)
    requires
        bit_vec@.len() == n * n,
        forall|k: int| 0 <= k < bit_vec@.len() ==> #[trigger] bit_vec@[k] <= 1,
        is_directed || n >= 1,
        n + 63 < 0xD800,
    ensures
        r@ == g6_string_of(bit_vec@, n, is_directed),
;

/// The flattened adjacency bit matrix of a graph, row-major.
pub open spec fn spec_adj_matrix(is_directed: bool, n: usize, edges: Seq<(usize, usize)>) -> Seq<
    usize,
> {
    Seq::new(
        (n * n) as nat,
        |c: int|
            if spec_adj_bit(is_directed, edges, c / (n as int), c % (n as int)) {
                1usize
            } else {
                0usize
            },
    )
}

/// The outcome the decoder owes for the string `s`: the digraph6 path when the
/// `&` sentinel leads, the graph6 path otherwise, and a decode failure for
/// anything the codec cannot take (an empty string, a lone sentinel, a `?`
/// size meaning zero vertices, a short symbol stream).
pub open spec fn spec_graph6_decode(s: Seq<char>) -> Result<
    (bool, usize, Seq<(usize, usize)>),
    GraphError,
> {
    if s.len() >= 2 && s[0] == '&' {
        match d6_decoded(s) {
            None => Err(GraphError::Graph6DecodeFailure),
            Some((n, bits)) => if bits.len() == n * n {
                Ok((true, n, spec_bits_edges(true, n, bits, 0)))
            } else {
                Err(GraphError::Graph6DecodeFailure)
            },
        }
    } else if s.len() >= 1 && s[0] != '&' && s[0] != '?' {
        match g6_decoded(s) {
            None => Err(GraphError::Graph6DecodeFailure),
            Some((n, bits)) => if bits.len() == n * n {
                Ok((false, n, spec_bits_edges(false, n, bits, 0)))
            } else {
                Err(GraphError::Graph6DecodeFailure)
            },
        }
    } else {
        Err(GraphError::Graph6DecodeFailure)
    }
}

/// Encoding into the graph6 / digraph6 text format.
pub trait ToGraph6 {
    /// Whether the value can be encoded: edges in range and a size the format
    /// can carry.
    spec fn graph6_ready(&self) -> bool;

    /// The text this value encodes to.
    spec fn graph6_view(&self) -> Seq<char>;

    /// Encodes into graph6; a directed value gets the digraph6 variant with
    /// its leading `&` sentinel.
    fn to_graph6(&self) -> (r: String)
        requires
            self.graph6_ready(),
        ensures
            r@ == self.graph6_view(),
    ;
}

impl ToGraph6 for BaseGraph {
    open spec fn graph6_ready(&self) -> bool {
        &&& forall|k: int|
            0 <= k < self.edges@.len() ==> (#[trigger] self.edges@[k]).0 < self.n
                && self.edges@[k].1 < self.n
        &&& self.n * self.n <= usize::MAX
        &&& self.is_directed || self.n >= 1
        &&& self.n + 63 < 0xD800
    }

    open spec fn graph6_view(&self) -> Seq<char> {
        g6_string_of(
            spec_adj_matrix(self.is_directed, self.n, self.edges@),
            self.n,
            self.is_directed,
        )
    }

    fn to_graph6(&self) -> (r: String) {
        let adj = self.to_adj_matrix();
        proof {
            assert(adj@ =~= spec_adj_matrix(self.is_directed, self.n, self.edges@));
        }
        graph6_rs::write_graph6(adj, self.n, self.is_directed)
    }
}

/// Decoding from the graph6 / digraph6 text format.
pub trait TryFromGraph6: Sized {
    /// What a correct decode of `s` must return for this type.
    spec fn graph6_decoding(s: Seq<char>, r: Result<Self, GraphError>) -> bool;

    /// Decodes a graph6 string; a leading `&` sentinel selects the digraph6
    /// (directed) variant.
    fn try_from_graph6(graph6: &str) -> (r: Result<Self, GraphError>)
        ensures
            Self::graph6_decoding(graph6@, r),
    ;
}

impl TryFromGraph6 for BaseGraph {
    open spec fn graph6_decoding(s: Seq<char>, r: Result<Self, GraphError>) -> bool {
        match spec_graph6_decode(s) {
            Ok((d, n, es)) => r matches Ok(g) && g.is_directed == d && g.n == n && g.edges@ == es,
            Err(e) => r matches Err(e2) && e2 == e,
        }
    }

    fn try_from_graph6(graph6: &str) -> (r: Result<Self, GraphError>) {
        let l = graph6.unicode_len();
        if l == 0 {
            return Err(GraphError::Graph6DecodeFailure);
        }
        let c0 = graph6.get_char(0);
        if c0 == '&' {
            if l < 2 {
                return Err(GraphError::Graph6DecodeFailure);
            }
            match decode_d6(graph6) {
                Err(_) => Err(GraphError::Graph6DecodeFailure),
                Ok((n, bits)) => {
                    proof {
                        assert(n * n <= 36864) by (nonlinear_arith)
                            requires
                                n <= 192,
                        ;
                    }
                    if bits.len() == n * n {
                        Ok(BaseGraph::from_adj_matrix(true, n, &bits))
                    } else {
                        Err(GraphError::Graph6DecodeFailure)
                    }
                },
            }
        } else if c0 == '?' {
            Err(GraphError::Graph6DecodeFailure)
        } else {
            match decode_g6(graph6) {
                Err(_) => Err(GraphError::Graph6DecodeFailure),
                Ok((n, bits)) => {
                    proof {
                        assert(n * n <= 36864) by (nonlinear_arith)
                            requires
                                n <= 192,
                        ;
                    }
                    if bits.len() == n * n {
                        Ok(BaseGraph::from_adj_matrix(false, n, &bits))
                    } else {
                        Err(GraphError::Graph6DecodeFailure)
                    }
                },
            }
        }
    }
}

} // verus!
