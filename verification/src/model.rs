//! Small shared vocabulary: metrics, models, chunking, callers.

use crate::ids::{PrincipalId, SessionId, TxnId};
use crate::text;
use vstd::prelude::*;

verus! {

/// A point in time, in nanoseconds since the Unix epoch.
pub type Timestamp = i128;

/// Distance metric a collection searches under. Scores are always reported
/// higher-is-better in this metric's convention.
#[derive(Clone, Copy, PartialEq, Eq, Hash, Debug, Structural)]
pub enum DistanceMetric {
    /// Cosine similarity.
    Cosine,
    /// Euclidean (L2) distance.
    L2,
    /// Raw dot product.
    DotProduct,
}

/// Identifies which embedding model produced a collection's vectors.
#[derive(PartialEq, Eq, Debug)]
pub struct ModelFingerprint {
    /// Identifier of the embedding model.
    pub model_id: String,
    /// Optional model revision or version string.
    pub revision: Option<String>,
    /// Output vector dimensionality.
    pub dim: usize,
}

impl Clone for ModelFingerprint {
    fn clone(&self) -> (r: Self)
        ensures
            r == *self,
    {
        ModelFingerprint {
            model_id: self.model_id.clone(),
            revision: text::copy_opt(&self.revision),
            dim: self.dim,
        }
    }
}

/// How a document's raw text is split into chunks.
#[derive(PartialEq, Debug)]
pub enum ChunkStrategy {
    /// Split on a fixed number of characters.
    Characters,
    /// Split using a named tokenizer's token boundaries.
    Tokens { tokenizer: String },
    /// Split on Markdown structure.
    Markdown { respect_headings: bool },
    /// Split on sentence boundaries.
    Sentences,
}

impl Clone for ChunkStrategy {
    fn clone(&self) -> (r: Self)
        ensures
            r == *self,
    {
        match self {
            ChunkStrategy::Characters => ChunkStrategy::Characters,
            ChunkStrategy::Tokens { tokenizer } => ChunkStrategy::Tokens { tokenizer: tokenizer.clone() },
            ChunkStrategy::Markdown { respect_headings } => ChunkStrategy::Markdown { respect_headings: *respect_headings },
            ChunkStrategy::Sentences => ChunkStrategy::Sentences,
        }
    }
}

impl Default for ChunkStrategy {
    fn default() -> (r: Self)
        ensures
            r == (ChunkStrategy::Markdown { respect_headings: true }),
    {
        ChunkStrategy::Markdown { respect_headings: true }
    }
}

/// Full configuration for splitting a document into chunks.
#[derive(PartialEq, Debug)]
pub struct ChunkSpec {
    /// The splitting strategy to apply.
    pub strategy: ChunkStrategy,
    /// Maximum number of tokens allowed per chunk.
    pub max_tokens: usize,
    /// Number of tokens shared between consecutive chunks.
    pub overlap_tokens: usize,
    /// Whether to trim leading and trailing whitespace from each chunk.
    pub trim: bool,
}

impl Clone for ChunkSpec {
    fn clone(&self) -> (r: Self)
        ensures
            r == *self,
    {
        ChunkSpec {
            strategy: self.strategy.clone(),
            max_tokens: self.max_tokens,
            overlap_tokens: self.overlap_tokens,
            trim: self.trim,
        }
    }
}

impl Default for ChunkSpec {
    fn default() -> (r: Self)
        ensures
            r == (ChunkSpec {
                strategy: ChunkStrategy::Markdown { respect_headings: true },
                max_tokens: 512,
                overlap_tokens: 64,
                trim: true,
            }),
    {
        ChunkSpec { strategy: ChunkStrategy::default(), max_tokens: 512, overlap_tokens: 64, trim: true }
    }
}

/// A principal's role.
#[derive(Clone, Copy, PartialEq, Eq, Hash, Debug, Structural)]
pub enum Role {
    /// Full administrative access.
    Admin,
    /// Read and write access to collection data.
    Writer,
    /// Read-only access to collection data.
    Reader,
    /// A replica peer, permitted to stream replication traffic.
    Replica,
}

/// The identity that a request acts under.
#[derive(Clone, PartialEq, Eq, Debug)]
pub struct Principal {
    /// Unique identifier of the principal.
    pub id: PrincipalId,
    /// Human-readable name of the principal.
    pub name: String,
    /// The principal's authorization role.
    pub role: Role,
}

/// Where a request came from. Socket addresses are held as text.
#[derive(Clone, PartialEq, Eq, Debug)]
pub enum Source {
    /// A Unix domain socket connection, with the peer's OS credentials.
    Uds { os_uid: u32, os_user: String },
    /// A plain TCP connection.
    Tcp(String),
    /// An HTTP connection.
    Http(String),
    /// An in-process call, attributed to the local OS user.
    Embedded,
}

/// One identity threaded through every mutating call.
#[derive(Clone, Debug)]
pub struct RequestCtx {
    /// Unique identifier for this request.
    pub request_id: TxnId,
    /// The session this request belongs to.
    pub session: SessionId,
    /// The identity making the request.
    pub principal: Principal,
    /// Where the request came from.
    pub source: Source,
}

impl RequestCtx {
    /// Builds a context with a fresh random request id.
    pub fn new(session: SessionId, principal: Principal, source: Source) -> (r: Self)
        ensures
            r.session == session,
            r.principal == principal,
            r.source == source,
    {
        RequestCtx { request_id: TxnId::new(), session, principal, source }
    }
}

} // verus!
