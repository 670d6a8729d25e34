//! Mesh traceroute: route request records and their wire format.

use vstd::prelude::*;

use vstd::std_specs::iter::IteratorSpec;

use crate::mesh::packet::NodeId;

verus! {

/// Traceroute configuration
#[derive(Debug, Clone, Copy)]
pub struct TracerouteConfig {
    /// Maximum hops to trace
    pub max_hops: u8,
    /// Timeout for waiting for response, in whole seconds
    pub timeout: u64,
    /// Number of probes per hop
    pub probes_per_hop: u8,
    /// Include SNR/RSSI measurements
    pub include_signal_quality: bool,
}

impl Default for TracerouteConfig {
    /// 10 hops, a 30 s timeout, one probe per hop, with signal quality.
    fn default() -> (c: Self)
        ensures
            c.max_hops == 10,
            c.timeout == 30,
            c.probes_per_hop == 1,
            c.include_signal_quality,
    {
        TracerouteConfig {
            max_hops: 10,
            timeout: 30,
            probes_per_hop: 1,
            include_signal_quality: true,
        }
    }
}

/// The four little-endian bytes of a value.
pub open spec fn le4(v: u32) -> Seq<u8> {
    seq![v as u8, (v >> 8u32) as u8, (v >> 16u32) as u8, (v >> 24u32) as u8]
}

/// The little-endian value of the four bytes at `off`.
pub open spec fn le32_at(b: Seq<u8>, off: int) -> u32 {
    (b[off] as u32) | ((b[off + 1] as u32) << 8u32) | ((b[off + 2] as u32) << 16u32) | ((b[off + 3]
        as u32) << 24u32)
}

/// The route's node ids, each as four little-endian bytes of its value.
pub open spec fn route_bytes(route: Seq<NodeId>) -> Seq<u8>
    decreases route.len(),
{
    if route.len() == 0 {
        seq![]
    } else {
        route_bytes(route.drop_last()) + le4(route.last().value())
    }
}

/// Route request packet format
#[derive(Debug, Clone)]
pub struct RouteRequest {
    /// Request ID
    pub request_id: u32,
    /// Original source
    pub source: NodeId,
    /// Final destination
    pub destination: NodeId,
    /// Current hop count
    pub hop_count: u8,
    /// Maximum hops allowed
    pub max_hops: u8,
    /// Recorded route (node IDs visited)
    pub route: Vec<NodeId>,
    /// Include signal quality in response
    pub want_signal_quality: bool,
}

/// The serialized request: request id, source, destination (values
/// little-endian), hop count, max hops, signal-quality flag, route length
/// (low byte), then the route.
pub open spec fn request_bytes(r: RouteRequest) -> Seq<u8> {
    le4(r.request_id) + le4(r.source.value()) + le4(r.destination.value()) + seq![
        r.hop_count,
        r.max_hops,
        if r.want_signal_quality { 1u8 } else { 0u8 },
        r.route.len() as u8,
    ] + route_bytes(r.route@)
}

/// Append the four little-endian bytes of `v`.
pub(crate) fn push_le32(bytes: &mut Vec<u8>, v: u32)
    ensures
        final(bytes)@ == old(bytes)@ + le4(v),
{
    bytes.push(v as u8);
    bytes.push((v >> 8) as u8);
    bytes.push((v >> 16) as u8);
    bytes.push((v >> 24) as u8);
    proof {
        assert(final(bytes)@ =~= old(bytes)@ + le4(v));
    }
}

/// The little-endian value of four bytes of a slice.
pub(crate) fn read_le32(bytes: &[u8], off: usize) -> (v: u32)
    requires
        off + 4 <= bytes.len(),
    ensures
        v == le32_at(bytes@, off as int),
{
    (bytes[off] as u32) | ((bytes[off + 1] as u32) << 8) | ((bytes[off + 2] as u32) << 16) | ((
    bytes[off + 3] as u32) << 24)
}

impl RouteRequest {
    /// Create a new route request: no hops yet, the route holds the
    /// source, signal quality wanted.
    pub fn new(request_id: u32, source: NodeId, destination: NodeId, max_hops: u8) -> (r: Self)
        ensures
            r.request_id == request_id,
            r.source == source,
            r.destination == destination,
            r.hop_count == 0,
            r.max_hops == max_hops,
            r.route@ == seq![source],
            r.want_signal_quality,
    {
        let mut route: Vec<NodeId> = Vec::new();
        route.push(source);
        RouteRequest {
            request_id,
            source,
            destination,
            hop_count: 0,
            max_hops,
            route,
            want_signal_quality: true,
        }
    }

    /// Record a hop
    pub fn add_hop(&mut self, node_id: NodeId)
        requires
            old(self).hop_count < 255,
        ensures
            final(self).hop_count == old(self).hop_count + 1,
            final(self).route@ == old(self).route@.push(node_id),
            final(self).request_id == old(self).request_id,
            final(self).source == old(self).source,
            final(self).destination == old(self).destination,
            final(self).max_hops == old(self).max_hops,
            final(self).want_signal_quality == old(self).want_signal_quality,
    {
        self.hop_count = self.hop_count + 1;
        self.route.push(node_id);
    }

    /// Check if max hops reached
    pub fn max_hops_reached(&self) -> (b: bool)
        ensures
            b == (self.hop_count >= self.max_hops),
    {
        self.hop_count >= self.max_hops
    }

    /// Serialize to bytes
    pub fn to_bytes(&self) -> (bytes: Vec<u8>)
        ensures
            bytes@ == request_bytes(*self),
    {
        let mut bytes: Vec<u8> = Vec::new();
        push_le32(&mut bytes, self.request_id);
        push_le32(&mut bytes, self.source.to_u32());
        push_le32(&mut bytes, self.destination.to_u32());
        bytes.push(self.hop_count);
        bytes.push(self.max_hops);
        bytes.push(if self.want_signal_quality { 1 } else { 0 });
        bytes.push(self.route.len() as u8);
        let ghost head = bytes@;
        let mut i: usize = 0;
        proof {
            assert(self.route@.subrange(0, 0) =~= seq![]);
            assert(bytes@ =~= head + route_bytes(self.route@.subrange(0, 0)));
        }
        while i < self.route.len()
            invariant
                i <= self.route.len(),
                bytes@ == head + route_bytes(self.route@.subrange(0, i as int)),
            decreases self.route.len() - i,
        {
            let v = self.route[i].to_u32();
            push_le32(&mut bytes, v);
            proof {
                let pre = self.route@.subrange(0, i + 1);
                assert(pre.drop_last() =~= self.route@.subrange(0, i as int));
                assert(bytes@ =~= head + route_bytes(pre));
            }
            i += 1;
        }
        proof {
            assert(self.route@.subrange(0, self.route.len() as int) =~= self.route@);
            assert(bytes@ =~= request_bytes(*self));
        }
        bytes
    }

    /// Deserialize from bytes: `None` below 16 bytes or when the route
    /// runs past the end.
    pub fn from_bytes(bytes: &[u8]) -> (r: Option<Self>)
        ensures
            r.is_some() <==> (bytes.len() >= 16 && bytes.len() >= 16 + 4 * (bytes[15] as int)),
            r matches Some(req) ==> {
                &&& req.request_id == le32_at(bytes@, 0)
                &&& req.source == NodeId::of_value(le32_at(bytes@, 4))
                &&& req.destination == NodeId::of_value(le32_at(bytes@, 8))
                &&& req.hop_count == bytes[12]
                &&& req.max_hops == bytes[13]
                &&& req.want_signal_quality == (bytes[14] != 0)
                &&& req.route.len() == bytes[15] as int
                &&& forall|i: int|
                    0 <= i < req.route.len() ==> #[trigger] req.route[i] == NodeId::of_value(
                        le32_at(bytes@, 16 + 4 * i),
                    )
            },
    {
        if bytes.len() < 16 {
            return None;
        }
        let request_id = read_le32(bytes, 0);
        let source = NodeId::from_u32(read_le32(bytes, 4));
        let destination = NodeId::from_u32(read_le32(bytes, 8));
        let hop_count = bytes[12];
        let max_hops = bytes[13];
        let want_signal_quality = bytes[14] != 0;
        let route_len = bytes[15] as usize;
        if bytes.len() < 16 + route_len * 4 {
            return None;
        }
        let mut route: Vec<NodeId> = Vec::with_capacity(route_len);
        let mut i: usize = 0;
        while i < route_len
            invariant
                route_len == bytes[15] as int,
                bytes.len() >= 16 + route_len * 4,
                i <= route_len,
                route.len() == i,
                forall|q: int|
                    0 <= q < i ==> #[trigger] route[q] == NodeId::of_value(le32_at(bytes@, 16 + 4 * q)),
            decreases route_len - i,
        {
            let offset = 16 + i * 4;
            let node_id = read_le32(bytes, offset);
            route.push(NodeId::from_u32(node_id));
            i += 1;
        }
        Some(
            RouteRequest {
                request_id,
                source,
                destination,
                hop_count,
                max_hops,
                route,
                want_signal_quality,
            },
        )
    }
}

/// The route bytes hold four bytes per node, node `i` at `4 i`.
proof fn lemma_route_bytes_layout(route: Seq<NodeId>)
    ensures
        route_bytes(route).len() == 4 * route.len(),
        forall|i: int, k: int|
            0 <= i < route.len() && 0 <= k < 4 ==> #[trigger] route_bytes(route)[4 * i + k] == le4(
                route[i].value(),
            )[k],
    decreases route.len(),
{
    if route.len() > 0 {
        let pre = route.drop_last();
        lemma_route_bytes_layout(pre);
        assert forall|i: int, k: int| 0 <= i < route.len() && 0 <= k < 4 implies #[trigger] route_bytes(
            route,
        )[4 * i + k] == le4(route[i].value())[k] by {
            if i < route.len() - 1 {
                assert(pre[i] == route[i]);
            }
        }
    }
}

/// The little-endian bytes of a value read back give the value.
pub(crate) proof fn lemma_le4_roundtrip(b: Seq<u8>, off: int, v: u32)
    requires
        0 <= off,
        off + 4 <= b.len(),
        b[off] == le4(v)[0],
        b[off + 1] == le4(v)[1],
        b[off + 2] == le4(v)[2],
        b[off + 3] == le4(v)[3],
    ensures
        le32_at(b, off) == v,
{
    let b0 = b[off];
    let b1 = b[off + 1];
    let b2 = b[off + 2];
    let b3 = b[off + 3];
    assert((b0 as u32) | ((b1 as u32) << 8u32) | ((b2 as u32) << 16u32) | ((b3 as u32) << 24u32) == v)
        by (bit_vector)
        requires
            b0 == v as u8,
            b1 == (v >> 8u32) as u8,
            b2 == (v >> 16u32) as u8,
            b3 == (v >> 24u32) as u8,
    ;
}

/// Reading back a serialized route request gives the request, as long as
/// the route length fits in its length byte.
pub proof fn lemma_route_request_roundtrip(r: RouteRequest)
    requires
        r.route.len() <= 255,
    ensures
        ({
            let b = request_bytes(r);
            &&& b.len() >= 16 && b.len() >= 16 + 4 * (b[15] as int)
            &&& le32_at(b, 0) == r.request_id
            &&& NodeId::of_value(le32_at(b, 4)) == r.source
            &&& NodeId::of_value(le32_at(b, 8)) == r.destination
            &&& b[12] == r.hop_count
            &&& b[13] == r.max_hops
            &&& (b[14] != 0) == r.want_signal_quality
            &&& b[15] as int == r.route.len()
            &&& forall|i: int|
                0 <= i < r.route.len() ==> NodeId::of_value(le32_at(b, 16 + 4 * i)) == r.route[i]
        }),
{
    let b = request_bytes(r);
    let head = le4(r.request_id) + le4(r.source.value()) + le4(r.destination.value()) + seq![
        r.hop_count,
        r.max_hops,
        if r.want_signal_quality { 1u8 } else { 0u8 },
        r.route.len() as u8,
    ];
    lemma_route_bytes_layout(r.route@);
    assert(head.len() == 16);
    assert(b == head + route_bytes(r.route@));
    assert(r.route.len() as u8 as int == r.route.len());
    lemma_le4_roundtrip(b, 0, r.request_id);
    lemma_le4_roundtrip(b, 4, r.source.value());
    lemma_le4_roundtrip(b, 8, r.destination.value());
    NodeId::lemma_of_value(r.source);
    NodeId::lemma_of_value(r.destination);
    assert forall|i: int| 0 <= i < r.route.len() implies NodeId::of_value(le32_at(b, 16 + 4 * i))
        == r.route[i] by {
        let v = r.route[i].value();
        assert(route_bytes(r.route@)[4 * i + 0] == le4(v)[0]);
        assert(route_bytes(r.route@)[4 * i + 1] == le4(v)[1]);
        assert(route_bytes(r.route@)[4 * i + 2] == le4(v)[2]);
        assert(route_bytes(r.route@)[4 * i + 3] == le4(v)[3]);
        assert(b[16 + 4 * i] == route_bytes(r.route@)[4 * i + 0]);
        assert(b[16 + 4 * i + 1] == route_bytes(r.route@)[4 * i + 1]);
        assert(b[16 + 4 * i + 2] == route_bytes(r.route@)[4 * i + 2]);
        assert(b[16 + 4 * i + 3] == route_bytes(r.route@)[4 * i + 3]);
        lemma_le4_roundtrip(b, 16 + 4 * i, v);
        NodeId::lemma_of_value(r.route[i]);
    }
}


/// Route reply packet format. The signal quality of each hop, RSSI then
/// SNR, is held as `f32` bit patterns.
#[derive(Debug, Clone)]
pub struct RouteReply {
    /// Request ID (matches the request)
    pub request_id: u32,
    /// Original source (who initiated)
    pub source: NodeId,
    /// Final destination (who replied)
    pub destination: NodeId,
    /// Complete route from source to destination
    pub route: Vec<NodeId>,
    /// Signal quality per hop (RSSI, SNR)
    pub signal_quality: Vec<(u32, u32)>,
    /// Success flag
    pub reached: bool,
}

/// The signal quality pairs, each as the little-endian bytes of its RSSI
/// then its SNR.
pub open spec fn signal_bytes(sq: Seq<(u32, u32)>) -> Seq<u8>
    decreases sq.len(),
{
    if sq.len() == 0 {
        seq![]
    } else {
        signal_bytes(sq.drop_last()) + le4(sq.last().0) + le4(sq.last().1)
    }
}

/// The wire format of a route reply: request id, source and destination
/// (four little-endian bytes each), the reached flag, the route and signal
/// counts, a reserved zero byte, then the route and the signal pairs.
pub open spec fn reply_bytes(r: RouteReply) -> Seq<u8> {
    le4(r.request_id) + le4(r.source.value()) + le4(r.destination.value()) + seq![
        if r.reached { 1u8 } else { 0u8 },
        r.route.len() as u8,
        r.signal_quality.len() as u8,
        0u8,
    ] + route_bytes(r.route@) + signal_bytes(r.signal_quality@)
}

/// Copy a route.
fn copy_route(route: &Vec<NodeId>) -> (out: Vec<NodeId>)
    ensures
        out@ == route@,
{
    let mut out: Vec<NodeId> = Vec::with_capacity(route.len());
    let mut i: usize = 0;
    while i < route.len()
        invariant
            i <= route.len(),
            out@ == route@.subrange(0, i as int),
        decreases route.len() - i,
    {
        out.push(route[i]);
        i += 1;
    }
    out
}

impl RouteReply {
    /// Create a new route reply from a request: its id, endpoints and
    /// route, no signal quality yet.
    pub fn from_request(request: &RouteRequest, reached: bool) -> (r: Self)
        ensures
            r.request_id == request.request_id,
            r.source == request.source,
            r.destination == request.destination,
            r.route@ == request.route@,
            r.signal_quality@ == Seq::<(u32, u32)>::empty(),
            r.reached == reached,
    {
        RouteReply {
            request_id: request.request_id,
            source: request.source,
            destination: request.destination,
            route: copy_route(&request.route),
            signal_quality: Vec::new(),
            reached,
        }
    }

    /// Add signal quality for a hop
    pub fn add_signal_quality(&mut self, rssi: u32, snr: u32)
        ensures
            final(self).signal_quality@ == old(self).signal_quality@.push((rssi, snr)),
            final(self).request_id == old(self).request_id,
            final(self).source == old(self).source,
            final(self).destination == old(self).destination,
            final(self).route@ == old(self).route@,
            final(self).reached == old(self).reached,
    {
        self.signal_quality.push((rssi, snr));
    }

    /// Serialize to bytes
    pub fn to_bytes(&self) -> (bytes: Vec<u8>)
        ensures
            bytes@ == reply_bytes(*self),
    {
        let mut bytes: Vec<u8> = Vec::new();
        push_le32(&mut bytes, self.request_id);
        push_le32(&mut bytes, self.source.to_u32());
        push_le32(&mut bytes, self.destination.to_u32());
        bytes.push(if self.reached { 1 } else { 0 });
        bytes.push(self.route.len() as u8);
        bytes.push(self.signal_quality.len() as u8);
        bytes.push(0);
        let ghost head = bytes@;
        let mut i: usize = 0;
        proof {
            assert(self.route@.subrange(0, 0) =~= seq![]);
            assert(bytes@ =~= head + route_bytes(self.route@.subrange(0, 0)));
        }
        while i < self.route.len()
            invariant
                i <= self.route.len(),
                bytes@ == head + route_bytes(self.route@.subrange(0, i as int)),
            decreases self.route.len() - i,
        {
            let v = self.route[i].to_u32();
            push_le32(&mut bytes, v);
            proof {
                let pre = self.route@.subrange(0, i + 1);
                assert(pre.drop_last() =~= self.route@.subrange(0, i as int));
                assert(bytes@ =~= head + route_bytes(pre));
            }
            i += 1;
        }
        proof {
            assert(self.route@.subrange(0, self.route.len() as int) =~= self.route@);
        }
        let ghost mid = bytes@;
        let mut j: usize = 0;
        proof {
            assert(self.signal_quality@.subrange(0, 0) =~= seq![]);
            assert(bytes@ =~= mid + signal_bytes(self.signal_quality@.subrange(0, 0)));
        }
        while j < self.signal_quality.len()
            invariant
                j <= self.signal_quality.len(),
                bytes@ == mid + signal_bytes(self.signal_quality@.subrange(0, j as int)),
            decreases self.signal_quality.len() - j,
        {
            let (rssi, snr) = self.signal_quality[j];
            push_le32(&mut bytes, rssi);
            push_le32(&mut bytes, snr);
            proof {
                let pre = self.signal_quality@.subrange(0, j + 1);
                assert(pre.drop_last() =~= self.signal_quality@.subrange(0, j as int));
                assert(bytes@ =~= mid + signal_bytes(pre));
            }
            j += 1;
        }
        proof {
            assert(self.signal_quality@.subrange(0, self.signal_quality.len() as int)
                =~= self.signal_quality@);
            assert(bytes@ =~= reply_bytes(*self));
        }
        bytes
    }

    /// Deserialize from bytes: `None` below 16 bytes or when the route and
    /// signal pairs run past the end.
    pub fn from_bytes(bytes: &[u8]) -> (r: Option<Self>)
        ensures
            r.is_some() <==> (bytes.len() >= 16 && bytes.len() >= 16 + 4 * (bytes[13] as int) + 8 * (
            bytes[14] as int)),
            r matches Some(rep) ==> {
                &&& rep.request_id == le32_at(bytes@, 0)
                &&& rep.source == NodeId::of_value(le32_at(bytes@, 4))
                &&& rep.destination == NodeId::of_value(le32_at(bytes@, 8))
                &&& rep.reached == (bytes[12] != 0)
                &&& rep.route.len() == bytes[13] as int
                &&& forall|i: int|
                    0 <= i < rep.route.len() ==> #[trigger] rep.route[i] == NodeId::of_value(
                        le32_at(bytes@, 16 + 4 * i),
                    )
                &&& rep.signal_quality.len() == bytes[14] as int
                &&& forall|i: int|
                    0 <= i < rep.signal_quality.len() ==> #[trigger] rep.signal_quality[i] == (
                        le32_at(bytes@, 16 + 4 * (bytes[13] as int) + 8 * i),
                        le32_at(bytes@, 16 + 4 * (bytes[13] as int) + 8 * i + 4),
                    )
            },
    {
        if bytes.len() < 16 {
            return None;
        }
        let request_id = read_le32(bytes, 0);
        let source = NodeId::from_u32(read_le32(bytes, 4));
        let destination = NodeId::from_u32(read_le32(bytes, 8));
        let reached = bytes[12] != 0;
        let route_len = bytes[13] as usize;
        let signal_len = bytes[14] as usize;
        let expected_len = 16 + route_len * 4 + signal_len * 8;
        if bytes.len() < expected_len {
            return None;
        }
        let mut route: Vec<NodeId> = Vec::with_capacity(route_len);
        let mut i: usize = 0;
        while i < route_len
            invariant
                route_len == bytes[13] as int,
                bytes.len() >= 16 + route_len * 4,
                i <= route_len,
                route.len() == i,
                forall|q: int|
                    0 <= q < i ==> #[trigger] route[q] == NodeId::of_value(le32_at(bytes@, 16 + 4 * q)),
            decreases route_len - i,
        {
            let offset = 16 + i * 4;
            route.push(NodeId::from_u32(read_le32(bytes, offset)));
            i += 1;
        }
        let signal_offset = 16 + route_len * 4;
        let mut signal_quality: Vec<(u32, u32)> = Vec::with_capacity(signal_len);
        let mut k: usize = 0;
        while k < signal_len
            invariant
                signal_len == bytes[14] as int,
                signal_offset == 16 + 4 * (bytes[13] as int),
                bytes.len() >= signal_offset + signal_len * 8,
                k <= signal_len,
                signal_quality.len() == k,
                forall|q: int|
                    0 <= q < k ==> #[trigger] signal_quality[q] == (
                        le32_at(bytes@, signal_offset + 8 * q),
                        le32_at(bytes@, signal_offset + 8 * q + 4),
                    ),
            decreases signal_len - k,
        {
            let offset = signal_offset + k * 8;
            let rssi = read_le32(bytes, offset);
            let snr = read_le32(bytes, offset + 4);
            signal_quality.push((rssi, snr));
            k += 1;
        }
        Some(RouteReply { request_id, source, destination, route, signal_quality, reached })
    }
}

/// Response type for handling route requests
#[derive(Debug)]
pub enum RouteRequestResponse {
    /// Forward the request to next hop
    Forward(RouteRequest),
    /// Send reply back to source
    Reply(RouteReply),
}


/// The signal bytes hold eight bytes per pair, pair `i` at `8 i`.
proof fn lemma_signal_bytes_layout(sq: Seq<(u32, u32)>)
    ensures
        signal_bytes(sq).len() == 8 * sq.len(),
        forall|i: int|
            0 <= i < sq.len() ==> #[trigger] signal_bytes(sq).subrange(8 * i, 8 * i + 8) == le4(sq[i].0) + le4(
                sq[i].1,
            ),
    decreases sq.len(),
{
    if sq.len() > 0 {
        let pre = sq.drop_last();
        lemma_signal_bytes_layout(pre);
        let b = signal_bytes(sq);
        assert forall|i: int| 0 <= i < sq.len() implies #[trigger] signal_bytes(sq).subrange(
            8 * i,
            8 * i + 8,
        ) == le4(sq[i].0) + le4(sq[i].1) by {
            if i < sq.len() - 1 {
                assert(pre[i] == sq[i]);
                assert(b.subrange(8 * i, 8 * i + 8) =~= signal_bytes(pre).subrange(8 * i, 8 * i + 8));
            } else {
                assert(b.subrange(8 * i, 8 * i + 8) =~= le4(sq.last().0) + le4(sq.last().1));
            }
        }
    }
}

/// Four bytes equal to the little-endian bytes of a value read back give it.
proof fn lemma_le4_at(b: Seq<u8>, off: int, v: u32)
    requires
        0 <= off,
        off + 4 <= b.len(),
        b.subrange(off, off + 4) == le4(v),
    ensures
        le32_at(b, off) == v,
{
    assert(b[off] == b.subrange(off, off + 4)[0]);
    assert(b[off + 1] == b.subrange(off, off + 4)[1]);
    assert(b[off + 2] == b.subrange(off, off + 4)[2]);
    assert(b[off + 3] == b.subrange(off, off + 4)[3]);
    lemma_le4_roundtrip(b, off, v);
}

/// Reading back a serialized route reply gives the reply, as long as the
/// route and signal counts fit in their bytes.
pub proof fn lemma_route_reply_roundtrip(r: RouteReply)
    requires
        r.route.len() <= 255,
        r.signal_quality.len() <= 255,
    ensures
        ({
            let b = reply_bytes(r);
            &&& b.len() >= 16 && b.len() >= 16 + 4 * (b[13] as int) + 8 * (b[14] as int)
            &&& le32_at(b, 0) == r.request_id
            &&& NodeId::of_value(le32_at(b, 4)) == r.source
            &&& NodeId::of_value(le32_at(b, 8)) == r.destination
            &&& (b[12] != 0) == r.reached
            &&& b[13] as int == r.route.len()
            &&& forall|i: int|
                0 <= i < r.route.len() ==> NodeId::of_value(le32_at(b, 16 + 4 * i)) == r.route[i]
            &&& b[14] as int == r.signal_quality.len()
            &&& forall|i: int|
                0 <= i < r.signal_quality.len() ==> (
                    le32_at(b, 16 + 4 * r.route.len() + 8 * i),
                    le32_at(b, 16 + 4 * r.route.len() + 8 * i + 4),
                ) == r.signal_quality[i]
        }),
{
    let b = reply_bytes(r);
    let head = le4(r.request_id) + le4(r.source.value()) + le4(r.destination.value()) + seq![
        if r.reached { 1u8 } else { 0u8 },
        r.route.len() as u8,
        r.signal_quality.len() as u8,
        0u8,
    ];
    let rb = route_bytes(r.route@);
    let sb = signal_bytes(r.signal_quality@);
    lemma_route_bytes_layout(r.route@);
    lemma_signal_bytes_layout(r.signal_quality@);
    assert(head.len() == 16);
    assert(b == head + rb + sb);
    lemma_le4_roundtrip(b, 0, r.request_id);
    lemma_le4_roundtrip(b, 4, r.source.value());
    lemma_le4_roundtrip(b, 8, r.destination.value());
    NodeId::lemma_of_value(r.source);
    NodeId::lemma_of_value(r.destination);
    assert forall|i: int| 0 <= i < r.route.len() implies NodeId::of_value(le32_at(b, 16 + 4 * i))
        == r.route[i] by {
        let v = r.route[i].value();
        assert(rb[4 * i + 0] == le4(v)[0]);
        assert(rb[4 * i + 1] == le4(v)[1]);
        assert(rb[4 * i + 2] == le4(v)[2]);
        assert(rb[4 * i + 3] == le4(v)[3]);
        assert(b[16 + 4 * i] == rb[4 * i + 0]);
        assert(b[16 + 4 * i + 1] == rb[4 * i + 1]);
        assert(b[16 + 4 * i + 2] == rb[4 * i + 2]);
        assert(b[16 + 4 * i + 3] == rb[4 * i + 3]);
        lemma_le4_roundtrip(b, 16 + 4 * i, v);
        NodeId::lemma_of_value(r.route[i]);
    }
    let so = 16 + 4 * r.route.len();
    assert forall|i: int| 0 <= i < r.signal_quality.len() implies (
        le32_at(b, so + 8 * i),
        le32_at(b, so + 8 * i + 4),
    ) == r.signal_quality[i] by {
        let (rssi, snr) = r.signal_quality[i];
        let pair = sb.subrange(8 * i, 8 * i + 8);
        assert(pair == le4(rssi) + le4(snr));
        assert(b.subrange(so + 8 * i, so + 8 * i + 4) =~= pair.subrange(0, 4));
        assert(b.subrange(so + 8 * i + 4, so + 8 * i + 8) =~= pair.subrange(4, 8));
        assert(pair.subrange(0, 4) =~= le4(rssi));
        assert(pair.subrange(4, 8) =~= le4(snr));
        lemma_le4_at(b, so + 8 * i, rssi);
        lemma_le4_at(b, so + 8 * i + 4, snr);
    }
}


/// The current instant of the monotonic clock (`Instant::now`). Nothing is
/// stated of it: it depends on the clock.
#[verifier::external_body]
fn instant_now() -> std::time::Instant {
    std::time::Instant::now()
}

/// The time from `earlier` to `later` (`later - earlier` on instants).
/// Nothing is stated of it: instants are opaque here.
#[verifier::external_body]
fn instant_between(later: std::time::Instant, earlier: std::time::Instant) -> std::time::Duration {
    later - earlier
}

/// Whole nanoseconds since `start` (`start.elapsed().as_nanos()`).
/// Nothing is stated of it: it depends on the clock.
#[verifier::external_body]
fn elapsed_ns(start: std::time::Instant) -> u128 {
    start.elapsed().as_nanos()
}

/// Whether a trace `elapsed_ns` nanoseconds old has run past a timeout of
/// `timeout_secs` whole seconds.
pub fn is_timed_out(elapsed_ns: u128, timeout_secs: u64) -> (b: bool)
    ensures
        b == (elapsed_ns > timeout_secs as u128 * 1_000_000_000),
{
    elapsed_ns > (timeout_secs as u128) * 1_000_000_000
}

/// A single hop in the route; RSSI and SNR are `f32` bit patterns.
#[derive(Debug, Clone, Copy)]
pub struct TracerouteHop {
    /// Hop number (1-based)
    pub hop_number: u8,
    /// Node ID at this hop
    pub node_id: NodeId,
    /// Round-trip time to this hop
    pub rtt: Option<std::time::Duration>,
    /// Signal quality (RSSI) at this hop
    pub rssi: Option<u32>,
    /// Signal-to-noise ratio at this hop
    pub snr: Option<u32>,
}

/// Result of a traceroute
#[derive(Debug, Clone)]
pub struct TracerouteResult {
    /// Request ID
    pub request_id: u32,
    /// Source node
    pub source: NodeId,
    /// Destination node
    pub destination: NodeId,
    /// Whether destination was reached
    pub reached: bool,
    /// All hops in the path
    pub hops: Vec<TracerouteHop>,
    /// Total round-trip time
    pub total_rtt: Option<std::time::Duration>,
    /// When the trace started
    pub started_at: std::time::Instant,
    /// When the trace completed
    pub completed_at: Option<std::time::Instant>,
}

/// Two results agree in every field, the hops by their contents.
pub open spec fn same_result(a: TracerouteResult, b: TracerouteResult) -> bool {
    &&& a.request_id == b.request_id
    &&& a.source == b.source
    &&& a.destination == b.destination
    &&& a.reached == b.reached
    &&& a.hops@ == b.hops@
    &&& a.total_rtt == b.total_rtt
    &&& a.started_at == b.started_at
    &&& a.completed_at == b.completed_at
}

/// A trace just started: nothing reached, no hops, no times but the start.
pub open spec fn fresh_result(r: TracerouteResult, request_id: u32, source: NodeId, destination: NodeId) -> bool {
    &&& r.request_id == request_id
    &&& r.source == source
    &&& r.destination == destination
    &&& !r.reached
    &&& r.hops@ == Seq::<TracerouteHop>::empty()
    &&& r.total_rtt.is_none()
    &&& r.completed_at.is_none()
}

/// The hops a reply reports: one per route node, numbered from one (the
/// number kept in a byte, so it wraps past 255), with
/// the signal quality recorded for it, if any, and no round-trip time.
pub open spec fn reply_hops(reply: RouteReply) -> Seq<TracerouteHop> {
    Seq::new(
        reply.route@.len(),
        |i: int|
            TracerouteHop {
                hop_number: (i + 1) as u8,
                node_id: reply.route[i],
                rtt: None,
                rssi: if i < reply.signal_quality.len() {
                    Some(reply.signal_quality[i].0)
                } else {
                    None
                },
                snr: if i < reply.signal_quality.len() {
                    Some(reply.signal_quality[i].1)
                } else {
                    None
                },
            },
    )
}

impl TracerouteResult {
    /// A trace started now.
    fn new(request_id: u32, source: NodeId, destination: NodeId) -> (r: Self)
        ensures
            fresh_result(r, request_id, source, destination),
    {
        TracerouteResult {
            request_id,
            source,
            destination,
            reached: false,
            hops: Vec::new(),
            total_rtt: None,
            started_at: instant_now(),
            completed_at: None,
        }
    }

    /// A copy of the result.
    fn duplicate(&self) -> (r: Self)
        ensures
            same_result(r, *self),
    {
        let mut hops: Vec<TracerouteHop> = Vec::with_capacity(self.hops.len());
        let mut i: usize = 0;
        while i < self.hops.len()
            invariant
                i <= self.hops.len(),
                hops@ == self.hops@.subrange(0, i as int),
            decreases self.hops.len() - i,
        {
            hops.push(self.hops[i]);
            i += 1;
        }
        proof {
            assert(hops@ =~= self.hops@);
        }
        TracerouteResult {
            request_id: self.request_id,
            source: self.source,
            destination: self.destination,
            reached: self.reached,
            hops,
            total_rtt: self.total_rtt,
            started_at: self.started_at,
            completed_at: self.completed_at,
        }
    }

    /// Get hop count
    pub fn hop_count(&self) -> (n: usize)
        ensures
            n == self.hops.len(),
    {
        self.hops.len()
    }
}

/// Traceroute manager
pub struct Traceroute {
    /// Our node ID
    our_node_id: NodeId,
    /// Configuration
    config: TracerouteConfig,
    /// Pending traces (request_id -> result)
    pending: std::collections::HashMap<u32, TracerouteResult>,
    /// Completed traces
    completed: Vec<TracerouteResult>,
    /// Next request ID
    next_request_id: u32,
}

impl Traceroute {
    /// Our node id.
    pub closed spec fn node_id(&self) -> NodeId {
        self.our_node_id
    }

    /// The configuration.
    pub closed spec fn config(&self) -> TracerouteConfig {
        self.config
    }

    /// The pending traces by request id.
    pub closed spec fn pending_traces(&self) -> Map<u32, TracerouteResult> {
        self.pending@
    }

    /// The completed traces, oldest first.
    pub closed spec fn completed_seq(&self) -> Seq<TracerouteResult> {
        self.completed@
    }

    /// The request id the next trace gets.
    pub closed spec fn next_id(&self) -> u32 {
        self.next_request_id
    }

    /// Every pending trace is filed under its own request id.
    pub closed spec fn wf(&self) -> bool {
        forall|k: u32| #[trigger] self.pending@.dom().contains(k) ==> self.pending@[k].request_id == k
    }

    /// Create a new Traceroute manager
    pub fn new(our_node_id: NodeId, config: TracerouteConfig) -> (t: Self)
        ensures
            t.wf(),
            t.node_id() == our_node_id,
            t.config() == config,
            t.pending_traces() == Map::<u32, TracerouteResult>::empty(),
            t.completed_seq() == Seq::<TracerouteResult>::empty(),
            t.next_id() == 1,
    {
        Traceroute {
            our_node_id,
            config,
            pending: std::collections::HashMap::new(),
            completed: Vec::new(),
            next_request_id: 1,
        }
    }

    /// Create with default configuration
    pub fn with_defaults(our_node_id: NodeId) -> (t: Self)
        ensures
            t.wf(),
            t.node_id() == our_node_id,
            t.config().max_hops == 10,
            t.config().timeout == 30,
            t.config().probes_per_hop == 1,
            t.config().include_signal_quality,
            t.pending_traces() == Map::<u32, TracerouteResult>::empty(),
            t.completed_seq() == Seq::<TracerouteResult>::empty(),
            t.next_id() == 1,
    {
        Self::new(our_node_id, TracerouteConfig::default())
    }

    /// Start a traceroute to a destination: a new pending trace under the
    /// next request id (which then advances, wrapping), and the request
    /// to send.
    pub fn start_trace(&mut self, destination: NodeId) -> (r: RouteRequest)
        requires
            old(self).wf(),
        ensures
            final(self).wf(),
            r.request_id == old(self).next_id(),
            r.source == old(self).node_id(),
            r.destination == destination,
            r.hop_count == 0,
            r.max_hops == old(self).config().max_hops,
            r.route@ == seq![old(self).node_id()],
            r.want_signal_quality,
            final(self).next_id() == (if old(self).next_id() == u32::MAX {
                0
            } else {
                old(self).next_id() + 1
            }),
            final(self).pending_traces().dom() == old(self).pending_traces().dom().insert(r.request_id),
            fresh_result(
                final(self).pending_traces()[r.request_id],
                r.request_id,
                old(self).node_id(),
                destination,
            ),
            forall|k: u32|
                k != r.request_id && old(self).pending_traces().dom().contains(k) ==> #[trigger] final(self).pending_traces()[k]
                    == old(self).pending_traces()[k],
            final(self).completed_seq() == old(self).completed_seq(),
            final(self).node_id() == old(self).node_id(),
            final(self).config() == old(self).config(),
    {
        broadcast use vstd::std_specs::hash::group_hash_axioms;

        let request_id = self.next_request_id;
        self.next_request_id = self.next_request_id.wrapping_add(1);
        let result = TracerouteResult::new(request_id, self.our_node_id, destination);
        self.pending.insert(request_id, result);
        RouteRequest::new(request_id, self.our_node_id, destination, self.config.max_hops)
    }

    /// Handle receiving a route request (as an intermediate hop or
    /// destination): we join the route; at the destination the reply
    /// (reached, with this hop's signal quality when wanted) goes back; at
    /// the hop limit a reply that did not reach; else the request goes on.
    pub fn handle_request(&self, request: RouteRequest, rssi: u32, snr: u32) -> (resp: RouteRequestResponse)
        requires
            request.hop_count < 255,
        ensures
            ({
                let route = request.route@.push(self.node_id());
                match resp {
                    RouteRequestResponse::Reply(reply) => {
                        &&& reply.request_id == request.request_id
                        &&& reply.source == request.source
                        &&& reply.destination == request.destination
                        &&& reply.route@ == route
                        &&& if self.node_id() == request.destination {
                            &&& reply.reached
                            &&& reply.signal_quality@ == (if request.want_signal_quality {
                                seq![(rssi, snr)]
                            } else {
                                Seq::<(u32, u32)>::empty()
                            })
                        } else {
                            &&& request.hop_count + 1 >= request.max_hops
                            &&& !reply.reached
                            &&& reply.signal_quality@ == Seq::<(u32, u32)>::empty()
                        }
                    },
                    RouteRequestResponse::Forward(fwd) => {
                        &&& self.node_id() != request.destination
                        &&& request.hop_count + 1 < request.max_hops
                        &&& fwd.request_id == request.request_id
                        &&& fwd.source == request.source
                        &&& fwd.destination == request.destination
                        &&& fwd.hop_count == request.hop_count + 1
                        &&& fwd.max_hops == request.max_hops
                        &&& fwd.want_signal_quality == request.want_signal_quality
                        &&& fwd.route@ == route
                    },
                }
            }),
    {
        let mut request = request;
        request.add_hop(self.our_node_id);
        let at_destination = self.our_node_id == request.destination;
        proof {
            if at_destination {
                NodeId::lemma_same_bytes(self.our_node_id, request.destination);
            }
        }
        if at_destination {
            let mut reply = RouteReply::from_request(&request, true);
            if request.want_signal_quality {
                reply.add_signal_quality(rssi, snr);
            }
            return RouteRequestResponse::Reply(reply);
        }
        if request.max_hops_reached() {
            let reply = RouteReply::from_request(&request, false);
            return RouteRequestResponse::Reply(reply);
        }
        RouteRequestResponse::Forward(request)
    }

    /// Handle receiving a route reply: the pending trace of its request id,
    /// if any, completes now with the reply's reached flag and one hop per
    /// route node; it joins the completed traces and is returned. `None`
    /// for an unknown request id.
    pub fn handle_reply(&mut self, reply: RouteReply) -> (r: Option<TracerouteResult>)
        requires
            old(self).wf(),
        ensures
            final(self).wf(),
            match r {
                Some(res) => {
                    let old_res = old(self).pending_traces()[reply.request_id];
                    &&& old(self).pending_traces().dom().contains(reply.request_id)
                    &&& final(self).pending_traces() == old(self).pending_traces().remove(reply.request_id)
                    &&& res.request_id == old_res.request_id
                    &&& res.source == old_res.source
                    &&& res.destination == old_res.destination
                    &&& res.started_at == old_res.started_at
                    &&& res.reached == reply.reached
                    &&& res.hops@ == old_res.hops@ + reply_hops(reply)
                    &&& res.hops@.len() == old_res.hops@.len() + reply.route@.len()
                    &&& forall|i: int|
                        0 <= i < reply.route@.len() ==> {
                            let h = #[trigger] res.hops@[old_res.hops@.len() + i];
                            &&& h.hop_number == (i + 1) as u8
                            &&& h.node_id == reply.route@[i]
                            &&& h.rtt.is_none()
                            &&& (i < reply.signal_quality@.len() ==> h.rssi == Some(reply.signal_quality@[i].0)
                                && h.snr == Some(reply.signal_quality@[i].1))
                            &&& (i >= reply.signal_quality@.len() ==> h.rssi.is_none() && h.snr.is_none())
                        }
                    &&& res.completed_at.is_some()
                    &&& res.total_rtt.is_some()
                    &&& final(self).completed_seq().len() == old(self).completed_seq().len() + 1
                    &&& final(self).completed_seq().drop_last() == old(self).completed_seq()
                    &&& same_result(final(self).completed_seq().last(), res)
                },
                None => {
                    &&& !old(self).pending_traces().dom().contains(reply.request_id)
                    &&& final(self).pending_traces() == old(self).pending_traces()
                    &&& final(self).completed_seq() == old(self).completed_seq()
                },
            },
            final(self).node_id() == old(self).node_id(),
            final(self).config() == old(self).config(),
            final(self).next_id() == old(self).next_id(),
    {
        broadcast use vstd::std_specs::hash::group_hash_axioms;

        match self.pending.remove(&reply.request_id) {
            Some(result) => {
                let mut result = result;
                let ghost res0 = result;
                let ghost hops0 = result.hops@;
                result.reached = reply.reached;
                let now = instant_now();
                result.completed_at = Some(now);
                result.total_rtt = Some(instant_between(now, result.started_at));
                let mut i: usize = 0;
                while i < reply.route.len()
                    invariant
                        i <= reply.route.len(),
                        result.hops@ == hops0 + reply_hops(reply).subrange(0, i as int),
                        result.request_id == res0.request_id,
                        result.source == res0.source,
                        result.destination == res0.destination,
                        result.started_at == res0.started_at,
                        result.reached == reply.reached,
                        result.completed_at.is_some(),
                        result.total_rtt.is_some(),
                    decreases reply.route.len() - i,
                {
                    let (rssi, snr) = if i < reply.signal_quality.len() {
                        (Some(reply.signal_quality[i].0), Some(reply.signal_quality[i].1))
                    } else {
                        (None, None)
                    };
                    let hop = TracerouteHop {
                        hop_number: #[verifier::truncate] ((i + 1) as u8),
                        node_id: reply.route[i],
                        rtt: None,
                        rssi,
                        snr,
                    };
                    result.hops.push(hop);
                    proof {
                        assert(result.hops@ =~= hops0 + reply_hops(reply).subrange(0, i + 1));
                    }
                    i += 1;
                }
                proof {
                    assert(reply_hops(reply).subrange(0, reply.route.len() as int) =~= reply_hops(reply));
                }
                let copy = result.duplicate();
                self.completed.push(copy);
                proof {
                    assert(self.completed@.drop_last() =~= old(self).completed@);
                }
                Some(result)
            },
            None => None,
        }
    }

    /// Get pending trace count
    pub fn pending_count(&self) -> (n: usize)
        ensures
            n == self.pending_traces().len(),
    {
        broadcast use vstd::std_specs::hash::group_hash_axioms;

        self.pending.len()
    }

    /// Get completed traces
    pub fn completed_traces(&self) -> (c: &[TracerouteResult])
        ensures
            c@ == self.completed_seq(),
    {
        self.completed.as_slice()
    }

    /// Clear completed traces
    pub fn clear_completed(&mut self)
        ensures
            final(self).completed_seq() == Seq::<TracerouteResult>::empty(),
            final(self).pending_traces() == old(self).pending_traces(),
            final(self).node_id() == old(self).node_id(),
            final(self).config() == old(self).config(),
            final(self).next_id() == old(self).next_id(),
    {
        self.completed.clear();
    }
}


/// A timed-out copy of a pending trace: the same but not reached, and
/// completed.
pub open spec fn timed_out_copy(r: TracerouteResult, pending: TracerouteResult) -> bool {
    &&& r.request_id == pending.request_id
    &&& r.source == pending.source
    &&& r.destination == pending.destination
    &&& !r.reached
    &&& r.hops@ == pending.hops@
    &&& r.total_rtt == pending.total_rtt
    &&& r.started_at == pending.started_at
    &&& r.completed_at.is_some()
}

impl Traceroute {
    /// Check for timed out traces: each pending trace whose start lies more
    /// than the configured timeout back, by the clock, leaves the pending
    /// traces, marked not reached and completed now. They are returned, in
    /// the order the pending map is walked, and join the completed traces.
    pub fn check_timeouts(&mut self) -> (out: Vec<TracerouteResult>)
        requires
            old(self).wf(),
        ensures
            final(self).wf(),
            final(self).pending_traces().dom().subset_of(old(self).pending_traces().dom()),
            forall|k: u32|
                #[trigger] final(self).pending_traces().dom().contains(k) ==> final(self).pending_traces()[k]
                    == old(self).pending_traces()[k],
            forall|k: u32|
                old(self).pending_traces().dom().contains(k) && !final(self).pending_traces().dom().contains(k)
                    ==> exists|q: int| 0 <= q < out.len() && #[trigger] out[q].request_id == k,
            forall|q: int|
                0 <= q < out.len() ==> {
                    &&& old(self).pending_traces().dom().contains(#[trigger] out[q].request_id)
                    &&& !final(self).pending_traces().dom().contains(out[q].request_id)
                    &&& timed_out_copy(out[q], old(self).pending_traces()[out[q].request_id])
                },
            forall|q1: int, q2: int|
                0 <= q1 < q2 < out.len() ==> #[trigger] out[q1].request_id != #[trigger] out[q2].request_id,
            final(self).completed_seq().len() == old(self).completed_seq().len() + out.len(),
            final(self).completed_seq().subrange(0, old(self).completed_seq().len() as int) == old(
                self,
            ).completed_seq(),
            forall|q: int|
                0 <= q < out.len() ==> same_result(
                    #[trigger] final(self).completed_seq()[old(self).completed_seq().len() + q],
                    out[q],
                ),
            final(self).node_id() == old(self).node_id(),
            final(self).config() == old(self).config(),
            final(self).next_id() == old(self).next_id(),
            exists|readings: Seq<(u32, u128)>|
                #[trigger] expired_by(
                    old(self).pending_traces().dom(),
                    final(self).pending_traces().dom(),
                    readings,
                    old(self).config().timeout,
                ),
    {
        let mut keys: Vec<u32> = Vec::new();
        let ks = self.pending.keys();
        for k in it: ks
            invariant
                keys.len() == it.index(),
        {
            keys.push(*k);
        }
        let mut readings: Vec<(u32, u128)> = Vec::new();
        let mut i: usize = 0;
        while i < keys.len()
            decreases keys.len() - i,
        {
            let k = keys[i];
            match self.pending.get(&k) {
                Some(r) => {
                    readings.push((k, elapsed_ns(r.started_at)));
                },
                None => {},
            }
            i += 1;
        }
        let ghost old_dom = self.pending@.dom();
        let out = self.expire_timed_out(readings.as_slice());
        let ghost expired = timed_out_ids(readings@, self.config.timeout);
        proof {
            lemma_timed_out_ids_members(readings@, self.config.timeout);
            lemma_expired_ids_members(old_dom, expired);
            assert(expired_by(old_dom, self.pending_traces().dom(), readings@, self.config.timeout));
        }
        proof {
            let ids = expired_ids(old_dom, expired);
            lemma_expired_ids(old_dom, expired);
            assert forall|k: u32|
                old_dom.contains(k) && !self.pending_traces().dom().contains(k) implies exists|q: int|
                0 <= q < out.len() && #[trigger] out[q].request_id == k by {
                assert(self.pending_traces().dom().contains(k) == (old_dom.contains(k) && !ids.contains(k)));
                assert(ids.contains(k));
                let q = choose|q: int| 0 <= q < ids.len() && ids[q] == k;
                assert(out[q].request_id == ids[q]);
            }
            assert forall|q1: int, q2: int| 0 <= q1 < q2 < out.len() implies #[trigger] out[q1].request_id
                != #[trigger] out[q2].request_id by {
                assert(ids[q1] != ids[q2]);
            }
            assert forall|q: int| 0 <= q < out.len() implies !self.pending_traces().dom().contains(
                #[trigger] out[q].request_id,
            ) by {
                assert(out[q].request_id == ids[q]);
                assert(ids.contains(ids[q]));
                assert(self.pending_traces().dom().contains(ids[q]) == (old_dom.contains(ids[q]) && !ids.contains(ids[q])));
            }
        }
        out
    }

    /// Expire the pending traces whose clock reading has run past the
    /// timeout: `readings` pairs request ids with the nanoseconds elapsed
    /// since their start, and a pending trace leaves the pending traces,
    /// marked not reached and completed now, exactly when one of its
    /// readings is timed out (`is_timed_out` against the configured
    /// timeout). The expired traces are returned in the order of their
    /// first timed-out reading and join the completed traces.
    pub fn expire_timed_out(&mut self, readings: &[(u32, u128)]) -> (out: Vec<TracerouteResult>)
        requires
            old(self).wf(),
        ensures
            final(self).wf(),
            ({
                let ids = expired_ids(
                    old(self).pending_traces().dom(),
                    timed_out_ids(readings@, old(self).config().timeout),
                );
                &&& out.len() == ids.len()
                &&& forall|q: int|
                    0 <= q < out.len() ==> #[trigger] out[q].request_id == ids[q] && timed_out_copy(
                        out[q],
                        old(self).pending_traces()[ids[q]],
                    )
                &&& forall|k: u32|
                    #[trigger] final(self).pending_traces().dom().contains(k) == (old(
                        self,
                    ).pending_traces().dom().contains(k) && !ids.contains(k))
            }),
            forall|k: u32|
                #[trigger] final(self).pending_traces().dom().contains(k) == (old(self).pending_traces().dom().contains(k)
                    && !(exists|q: int|
                    0 <= q < readings.len() && readings[q].0 == k && #[trigger] is_past(
                        readings[q].1,
                        old(self).config().timeout,
                    ))),
            forall|k: u32|
                #[trigger] final(self).pending_traces().dom().contains(k) ==> final(self).pending_traces()[k]
                    == old(self).pending_traces()[k],
            final(self).completed_seq().len() == old(self).completed_seq().len() + out.len(),
            final(self).completed_seq().subrange(0, old(self).completed_seq().len() as int) == old(
                self,
            ).completed_seq(),
            forall|q: int|
                0 <= q < out.len() ==> same_result(
                    #[trigger] final(self).completed_seq()[old(self).completed_seq().len() + q],
                    out[q],
                ),
            final(self).node_id() == old(self).node_id(),
            final(self).config() == old(self).config(),
            final(self).next_id() == old(self).next_id(),
    {
        let timeout = self.config.timeout;
        let mut expired: Vec<u32> = Vec::new();
        let mut i: usize = 0;
        while i < readings.len()
            invariant
                i <= readings.len(),
                expired@ == timed_out_ids(readings@.subrange(0, i as int), timeout),
            decreases readings.len() - i,
        {
            let (k, e) = readings[i];
            proof {
                assert(readings@.subrange(0, i + 1).drop_last() =~= readings@.subrange(0, i as int));
            }
            if is_timed_out(e, timeout) {
                expired.push(k);
            }
            i += 1;
        }
        proof {
            assert(readings@.subrange(0, readings.len() as int) =~= readings@);
        }
        let ghost old_dom = self.pending@.dom();
        let out = self.expire_traces(expired.as_slice());
        proof {
            lemma_timed_out_ids_members(readings@, timeout);
            lemma_expired_ids_members(old_dom, expired@);
        }
        out
    }

    /// Expire the listed traces: each listed request id that is pending
    /// (its first listing) leaves the pending traces, marked not reached and
    /// completed now. They are returned in the order listed and join the
    /// completed traces; ids that are not pending are passed over.
    pub fn expire_traces(&mut self, expired: &[u32]) -> (out: Vec<TracerouteResult>)
        requires
            old(self).wf(),
        ensures
            final(self).wf(),
            ({
                let ids = expired_ids(old(self).pending_traces().dom(), expired@);
                &&& out.len() == ids.len()
                &&& forall|q: int|
                    0 <= q < out.len() ==> #[trigger] out[q].request_id == ids[q] && timed_out_copy(
                        out[q],
                        old(self).pending_traces()[ids[q]],
                    )
                &&& forall|k: u32|
                    #[trigger] final(self).pending_traces().dom().contains(k) == (old(
                        self,
                    ).pending_traces().dom().contains(k) && !ids.contains(k))
            }),
            forall|k: u32|
                #[trigger] final(self).pending_traces().dom().contains(k) ==> final(self).pending_traces()[k]
                    == old(self).pending_traces()[k],
            final(self).completed_seq().len() == old(self).completed_seq().len() + out.len(),
            final(self).completed_seq().subrange(0, old(self).completed_seq().len() as int) == old(
                self,
            ).completed_seq(),
            forall|q: int|
                0 <= q < out.len() ==> same_result(
                    #[trigger] final(self).completed_seq()[old(self).completed_seq().len() + q],
                    out[q],
                ),
            final(self).node_id() == old(self).node_id(),
            final(self).config() == old(self).config(),
            final(self).next_id() == old(self).next_id(),
    {
        broadcast use vstd::std_specs::hash::group_hash_axioms;

        let ghost old_pending = self.pending@;
        let ghost old_completed = self.completed@;
        let mut out: Vec<TracerouteResult> = Vec::new();
        let mut i: usize = 0;
        while i < expired.len()
            invariant
                i <= expired.len(),
                forall|k: u32| #[trigger] old_pending.dom().contains(k) ==> old_pending[k].request_id == k,
                ({
                    let ids = expired_ids(old_pending.dom(), expired@.subrange(0, i as int));
                    &&& out.len() == ids.len()
                    &&& forall|q: int|
                        0 <= q < out.len() ==> #[trigger] out[q].request_id == ids[q] && timed_out_copy(
                            out[q],
                            old_pending[ids[q]],
                        )
                    &&& forall|k: u32|
                        #[trigger] self.pending@.dom().contains(k) == (old_pending.dom().contains(k)
                            && !ids.contains(k))
                }),
                forall|k: u32| #[trigger] self.pending@.dom().contains(k) ==> self.pending@[k] == old_pending[k],
                self.completed@.len() == old_completed.len() + out.len(),
                self.completed@.subrange(0, old_completed.len() as int) == old_completed,
                forall|q: int|
                    0 <= q < out.len() ==> same_result(#[trigger] self.completed@[old_completed.len() + q], out[q]),
                self.our_node_id == old(self).our_node_id,
                self.config == old(self).config,
                self.next_request_id == old(self).next_request_id,
            decreases expired.len() - i,
        {
            let k = expired[i];
            let ghost ids = expired_ids(old_pending.dom(), expired@.subrange(0, i as int));
            proof {
                assert(expired@.subrange(0, i + 1).drop_last() =~= expired@.subrange(0, i as int));
                assert(expired@.subrange(0, i + 1).last() == k);
            }
            match self.pending.remove(&k) {
                Some(r) => {
                    let mut copy = r.duplicate();
                    copy.reached = false;
                    copy.completed_at = Some(instant_now());
                    let dup = copy.duplicate();
                    out.push(copy);
                    self.completed.push(dup);
                    proof {
                        let ids2 = expired_ids(old_pending.dom(), expired@.subrange(0, i + 1));
                        assert(ids2 == ids.push(k));
                        assert forall|kk: u32| #[trigger] self.pending@.dom().contains(kk) == (old_pending.dom().contains(kk)
                            && !ids2.contains(kk)) by {
                            if kk != k {
                                assert(ids2.contains(kk) == ids.contains(kk)) by {
                                    if ids2.contains(kk) {
                                        let q = choose|q: int| 0 <= q < ids2.len() && ids2[q] == kk;
                                        assert(ids[q] == kk);
                                    }
                                    if ids.contains(kk) {
                                        let q = choose|q: int| 0 <= q < ids.len() && ids[q] == kk;
                                        assert(ids2[q] == kk);
                                    }
                                }
                            } else {
                                assert(ids2[ids.len() as int] == k);
                            }
                        }
                        assert(self.completed@.subrange(0, old_completed.len() as int) =~= old_completed);
                    }
                },
                None => {
                    proof {
                        let ids2 = expired_ids(old_pending.dom(), expired@.subrange(0, i + 1));
                        assert(ids2 == ids);
                    }
                },
            }
            i += 1;
        }
        proof {
            assert(expired@.subrange(0, expired.len() as int) =~= expired@);
            assert forall|k: u32| #[trigger] self.pending@.dom().contains(k) implies self.pending@[k].request_id == k by {
            }
        }
        out
    }
}

/// The request ids that expiring the listed ids removes from pending ids
/// `dom`, in list order: each pending id at its first listing.
pub open spec fn expired_ids(dom: Set<u32>, ks: Seq<u32>) -> Seq<u32>
    decreases ks.len(),
{
    if ks.len() == 0 {
        seq![]
    } else {
        let rest = expired_ids(dom, ks.drop_last());
        if dom.contains(ks.last()) && !rest.contains(ks.last()) {
            rest.push(ks.last())
        } else {
            rest
        }
    }
}

/// The expired ids are pending ids, each once.
proof fn lemma_expired_ids(dom: Set<u32>, ks: Seq<u32>)
    ensures
        forall|q: int| 0 <= q < expired_ids(dom, ks).len() ==> dom.contains(#[trigger] expired_ids(dom, ks)[q]),
        expired_ids(dom, ks).no_duplicates(),
    decreases ks.len(),
{
    if ks.len() > 0 {
        lemma_expired_ids(dom, ks.drop_last());
    }
}

/// The pending ids `after` are those of `before` that no reading in
/// `readings` found timed out.
pub open spec fn expired_by(before: Set<u32>, after: Set<u32>, readings: Seq<(u32, u128)>, timeout_secs: u64) -> bool {
    forall|k: u32|
        #[trigger] after.contains(k) == (before.contains(k) && !timed_out_ids(readings, timeout_secs).contains(k))
}

/// Whether `elapsed_ns` nanoseconds have run past a timeout of
/// `timeout_secs` whole seconds.
pub open spec fn is_past(elapsed_ns: u128, timeout_secs: u64) -> bool {
    elapsed_ns > timeout_secs as u128 * 1_000_000_000
}

/// The ids of the readings that have run past the timeout, in order.
pub open spec fn timed_out_ids(readings: Seq<(u32, u128)>, timeout_secs: u64) -> Seq<u32>
    decreases readings.len(),
{
    if readings.len() == 0 {
        seq![]
    } else {
        let rest = timed_out_ids(readings.drop_last(), timeout_secs);
        if is_past(readings.last().1, timeout_secs) {
            rest.push(readings.last().0)
        } else {
            rest
        }
    }
}

/// An id is among the timed-out ids exactly when one of its readings has
/// run past the timeout.
proof fn lemma_timed_out_ids_members(readings: Seq<(u32, u128)>, timeout_secs: u64)
    ensures
        forall|k: u32|
            #[trigger] timed_out_ids(readings, timeout_secs).contains(k) == (exists|q: int|
                0 <= q < readings.len() && readings[q].0 == k && #[trigger] is_past(readings[q].1, timeout_secs)),
    decreases readings.len(),
{
    if readings.len() > 0 {
        let rest = readings.drop_last();
        lemma_timed_out_ids_members(rest, timeout_secs);
        let t = timed_out_ids(readings, timeout_secs);
        let tr = timed_out_ids(rest, timeout_secs);
        let n = readings.len() - 1;
        assert forall|k: u32|
            #[trigger] t.contains(k) == (exists|q: int|
                0 <= q < readings.len() && readings[q].0 == k && #[trigger] is_past(readings[q].1, timeout_secs)) by {
            if t.contains(k) {
                let i = choose|i: int| 0 <= i < t.len() && t[i] == k;
                if i < tr.len() {
                    assert(tr.contains(k));
                    let q = choose|q: int|
                        0 <= q < rest.len() && rest[q].0 == k && #[trigger] is_past(rest[q].1, timeout_secs);
                    assert(readings[q] == rest[q]);
                } else {
                    assert(is_past(readings[n].1, timeout_secs));
                }
            }
            if exists|q: int| 0 <= q < readings.len() && readings[q].0 == k && #[trigger] is_past(readings[q].1, timeout_secs) {
                let q = choose|q: int|
                    0 <= q < readings.len() && readings[q].0 == k && #[trigger] is_past(readings[q].1, timeout_secs);
                if q < n {
                    assert(rest[q] == readings[q]);
                    assert(is_past(rest[q].1, timeout_secs));
                    assert(tr.contains(k));
                    let i = choose|i: int| 0 <= i < tr.len() && tr[i] == k;
                    assert(t[i] == k);
                } else {
                    assert(t[t.len() - 1] == k);
                }
            }
        }
    }
}

/// An id is among the expired ids exactly when it is pending and listed.
proof fn lemma_expired_ids_members(dom: Set<u32>, ks: Seq<u32>)
    ensures
        forall|k: u32| #[trigger] expired_ids(dom, ks).contains(k) == (dom.contains(k) && ks.contains(k)),
    decreases ks.len(),
{
    if ks.len() > 0 {
        let rest = ks.drop_last();
        lemma_expired_ids_members(dom, rest);
        let e = expired_ids(dom, ks);
        let er = expired_ids(dom, rest);
        assert forall|k: u32| #[trigger] e.contains(k) == (dom.contains(k) && ks.contains(k)) by {
            if e.contains(k) {
                let i = choose|i: int| 0 <= i < e.len() && e[i] == k;
                if i < er.len() {
                    assert(er.contains(k));
                    let j = choose|j: int| 0 <= j < rest.len() && rest[j] == k;
                    assert(ks[j] == k);
                } else {
                    assert(ks[ks.len() - 1] == k);
                }
            }
            if dom.contains(k) && ks.contains(k) {
                let j = choose|j: int| 0 <= j < ks.len() && ks[j] == k;
                if j < ks.len() - 1 {
                    assert(rest[j] == k);
                    assert(er.contains(k));
                    let i = choose|i: int| 0 <= i < er.len() && er[i] == k;
                    if er.len() < e.len() {
                        assert(e[i] == k);
                    }
                } else {
                    if !er.contains(k) {
                        assert(e[e.len() - 1] == k);
                    }
                }
            }
        }
    }
}

} // verus!
