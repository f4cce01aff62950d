//! How values are laid out in bytes, and what requests come to, said of the
//! bytes and of the parameters themselves.

use crate::change;
use crate::change::EventView;
use crate::codec;
use crate::codec::{FrameKind, FrameView, ProtoError, PROTOCOL_VERSION};
use crate::encoding;
use crate::encoding::WalErrorView;
use crate::params;
use crate::params::SELECTIVITY_HIGH_BITS;
use crate::request;
use crate::request::{Request, WireSearchParams};
use crate::store;
use vstd::prelude::*;

verus! {

/// A number is written with its highest byte first: reading takes the first
/// byte as the most significant.
pub proof fn numbers_stand_highest_byte_first(b: Seq<u8>)
    requires
        b.len() > 0,
    ensures
        codec::be_value(b) == b[0] * codec::pow256((b.len() - 1) as nat) + codec::be_value(b.skip(1)),
        codec::be_value(seq![b[0]]) == b[0],
    decreases b.len(),
{
    let one = seq![b[0]];
    assert(one.drop_last() =~= Seq::<u8>::empty());
    assert(codec::be_value(one.drop_last()) == 0);
    if b.len() == 1 {
        assert(b.drop_last() =~= Seq::<u8>::empty());
        assert(b.skip(1) =~= Seq::<u8>::empty());
        assert(codec::be_value(b.drop_last()) == 0);
        assert(codec::be_value(b.skip(1)) == 0);
        assert(codec::pow256(0) == 1);
        assert(b[0] * 1 == b[0]);
    } else {
        let front = b.drop_last();
        numbers_stand_highest_byte_first(front);
        assert(b.skip(1).drop_last() =~= front.skip(1));
        let p = codec::pow256((b.len() - 2) as nat);
        let v = codec::be_value(front.skip(1));
        assert(codec::pow256((b.len() - 1) as nat) == 256 * p);
        assert(codec::be_value(b) == (b[0] * p + v) * 256 + b.last());
        let first = b[0] as int;
        assert((first * p + v) * 256 == first * (256 * p) + v * 256) by (nonlinear_arith);
        assert(codec::be_value(b.skip(1)) == v * 256 + b.skip(1).last());
    }
}

/// A frame is a byte for the version, a byte for the kind (nought for a
/// request, one for a response), sixteen for the request's id and four for the
/// body's length, highest byte first, and the body.
pub proof fn a_frame_has_its_header_and_its_body(kind: FrameKind, request_id: u128, body: Seq<u8>)
    requires
        body.len() <= u32::MAX,
    ensures
        ({
            let bytes = codec::frame_bytes(kind, request_id, body);
            &&& bytes.len() == 22 + body.len()
            &&& bytes[0] == PROTOCOL_VERSION
            &&& bytes[1] == (if kind == FrameKind::Request { 0u8 } else { 1u8 })
            &&& codec::be_value(bytes.subrange(2, 18)) == request_id
            &&& codec::be_value(bytes.subrange(18, 22)) == body.len()
            &&& bytes.skip(22) == body
        }),
{
    codec::frame_round_trips(kind, request_id, body, Seq::empty());
    let bytes = codec::frame_bytes(kind, request_id, body);
    assert(bytes + Seq::<u8>::empty() =~= bytes);
    assert(bytes.skip(22) =~= bytes.subrange(22, bytes.len() as int));
    lemma_id_fits(bytes.subrange(2, 18));
    assert(codec::be_value(bytes.subrange(2, 18)) as u128 == request_id);
}

proof fn lemma_below(b: Seq<u8>)
    ensures
        codec::be_value(b) < codec::pow256(b.len()),
    decreases b.len(),
{
    if b.len() > 0 {
        lemma_below(b.drop_last());
    }
}

proof fn lemma_id_fits(b: Seq<u8>)
    requires
        b.len() == 16,
    ensures
        codec::be_value(b) <= u128::MAX,
{
    lemma_below(b);
    reveal_with_fuel(codec::pow256, 17);
}

/// What is decoded of a buffer is the frame at its beginning. Nothing is, and
/// nothing is wrong, while the header or the body is not all there; a version
/// or a kind that is not known is refused as soon as the header is.
pub proof fn a_frame_is_decoded_once_it_is_there(buf: Seq<u8>)
    ensures
        buf.len() < 22 ==> codec::decoded_frame(buf) == Ok::<Option<(FrameView, nat)>, ProtoError>(None),
        buf.len() >= 22 && buf[0] == PROTOCOL_VERSION && buf[1] > 1 ==> codec::decoded_frame(buf) == Err::<Option<(FrameView, nat)>, ProtoError>(
            ProtoError::InvalidFrameKind(buf[1]),
        ),
        buf.len() >= 22 && buf[0] == PROTOCOL_VERSION && buf[1] <= 1 && buf.len() < 22 + codec::be_value(buf.subrange(18, 22)) ==> codec::decoded_frame(buf) == Ok::<
            Option<(FrameView, nat)>,
            ProtoError,
        >(None),
        codec::decoded_frame(buf) matches Ok(Some((f, n))) ==> {
            &&& n == 22 + codec::be_value(buf.subrange(18, 22))
            &&& n <= buf.len()
            &&& f.version == buf[0] == PROTOCOL_VERSION
            &&& f.kind is Request <==> buf[1] == 0
            &&& f.kind is Response <==> buf[1] == 1
            &&& f.request_id == codec::be_value(buf.subrange(2, 18))
            &&& f.body == buf.subrange(22, n as int)
        },
{
    if buf.len() >= 22 {
        lemma_id_fits(buf.subrange(2, 18));
    }
}

/// A vector is stored as four bytes for each component, the lowest first.
pub proof fn a_vector_is_stored_lowest_byte_first(v: Seq<u32>, i: int)
    requires
        0 <= i < v.len(),
    ensures
        ({
            let b = encoding::vector_bytes(v);
            &&& b.len() == 4 * v.len()
            &&& v[i] as int == b[4 * i] + 256 * b[4 * i + 1] + 65536 * b[4 * i + 2] + 16777216 * b[4 * i + 3]
        }),
{
    let w = v[i];
    let b = encoding::vector_bytes(v);
    assert((4 * i) / 4 == i && (4 * i + 1) / 4 == i && (4 * i + 2) / 4 == i && (4 * i + 3) / 4 == i);
    assert(b[4 * i] == (w % 256) as u8);
    assert(b[4 * i + 1] == ((w / 256) % 256) as u8);
    assert(b[4 * i + 2] == ((w / 65536) % 256) as u8);
    assert(b[4 * i + 3] == (w / 16777216) as u8);
}

/// Bytes are read as a vector exactly when they are base64 of whole
/// components.
pub proof fn a_stored_vector_has_whole_components(s: Seq<char>)
    ensures
        encoding::decoded_vector(s) is Ok <==> encoding::base64_bytes(s) is Ok && (encoding::base64_bytes(s)->Ok_0).len() % 4 == 0,
        encoding::decoded_vector(s) matches Ok(v) ==> {
            let b = encoding::base64_bytes(s)->Ok_0;
            &&& 4 * v.len() == b.len()
            &&& forall|i: int| 0 <= i < v.len() ==> #[trigger] v[i] as int == b[4 * i] + 256 * b[4 * i + 1] + 65536 * b[4 * i + 2] + 16777216 * b[4 * i + 3]
        },
        encoding::base64_bytes(s) matches Err(e) ==> encoding::decoded_vector(s) == Err::<Seq<u32>, WalErrorView>(WalErrorView::Corrupt(e)),
{
}

/// A search parameter that a request gives is used; one that it leaves out is
/// the default: three chunks of a document at most, eight lists and eight
/// parents, a shortlist that grows with the search, and filters of up to
/// twenty thousand rows searched exactly.
pub proof fn a_given_parameter_is_used(w: WireSearchParams)
    ensures
        ({
            let r = request::resolved(w, params::default_params());
            &&& r.max_chunks_per_doc == (if w.max_chunks_per_doc is Some { w.max_chunks_per_doc } else { Some(3u32) })
            &&& w.nprobe matches Some(n) ==> r.nprobe == n
            &&& w.nprobe is None ==> r.nprobe == 8
            &&& w.beam_width matches Some(n) ==> r.beam_width == n
            &&& w.beam_width is None ==> r.beam_width == 8
            &&& r.rerank_k == w.rerank_k
            &&& w.filter_exact_threshold matches Some(n) ==> r.filter_exact_threshold == n
            &&& w.filter_exact_threshold is None ==> r.filter_exact_threshold == 20_000
            &&& w.filter_selectivity_high matches Some(n) ==> r.filter_selectivity_high == n
            &&& w.filter_selectivity_high is None ==> r.filter_selectivity_high == SELECTIVITY_HIGH_BITS
            &&& r.filter_nprobe_max == w.filter_nprobe_max
        }),
{
}

/// A request that is about a collection names it.
pub proof fn a_request_names_its_collection(r: Request)
    ensures
        r matches Request::Put { coll, .. } ==> store::target(r) == Some(coll@),
        r matches Request::PutBatch { coll, .. } ==> store::target(r) == Some(coll@),
        r matches Request::GetByKey { coll, .. } ==> store::target(r) == Some(coll@),
        r matches Request::Delete { coll, .. } ==> store::target(r) == Some(coll@),
        r matches Request::PutDocument { coll, .. } ==> store::target(r) == Some(coll@),
        r matches Request::Search { coll, .. } ==> store::target(r) == Some(coll@),
        r matches Request::Reindex { coll, .. } ==> store::target(r) == Some(coll@),
        r matches Request::CreateCollection { name, .. } ==> store::target(r) == Some(name@),
{
}

/// An event is about the row, and the document, that it names.
pub proof fn an_event_names_its_row(e: EventView)
    ensures
        e matches EventView::Insert(w) ==> change::event_row(e) == w.row_id && change::event_doc(e) == w.doc_id,
        e matches EventView::Update(w) ==> change::event_row(e) == w.row_id && change::event_doc(e) == w.doc_id,
        e matches EventView::Delete { row_id, doc_id, text } ==> change::event_row(e) == row_id && change::event_doc(e) == doc_id,
{
}

/// A kind of frame has a byte of its own: nought for a request, one for a
/// response.
pub proof fn a_kind_has_its_byte(k: FrameKind)
    ensures
        k is Request ==> codec::kind_byte(k) == 0,
        k is Response ==> codec::kind_byte(k) == 1,
{
}

} // verus!
