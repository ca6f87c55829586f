//! The bootstrap node's answer to a peer lookup: where the requested peer
//! can be reached, as far as the node's routing table knows.

use vstd::prelude::*;
use crate::cid::{bytes_eq, copy_range};

verus! {

/// A request for the addresses of a peer, by its identifier bytes.
pub struct PeerIdRequest(pub Vec<u8>);

/// A peer and the addresses (as bytes) it can be reached at.
pub struct PeerInfo {
    pub peer_id: Vec<u8>,
    pub multiaddrs: Vec<Vec<u8>>,
}

/// The answer to a [`PeerIdRequest`].
pub enum PeerInfoResponse {
    Found(PeerInfo),
    NotFound(PeerIdRequest),
}

/// What the request-response protocol reports.
pub enum RequestResponseEvent {
    /// A peer asks for the addresses of another.
    Request(PeerIdRequest),
    /// A response from a peer.
    Response,
    /// A response could not be sent.
    OutboundFailure,
    /// A request could not be received.
    InboundFailure,
    /// A response was sent.
    ResponseSent,
}

/// An answer as values: found (peer, addresses) or not found (the request).
pub enum ResponseModel {
    Found(Seq<u8>, Seq<Seq<u8>>),
    NotFound(Seq<u8>),
}

/// Byte vectors as values.
pub open spec fn addrs_model(v: Seq<Vec<u8>>) -> Seq<Seq<u8>> {
    v.map_values(|a: Vec<u8>| a@)
}

/// The value of an answer.
pub open spec fn response_model(r: PeerInfoResponse) -> ResponseModel {
    match r {
        PeerInfoResponse::Found(i) => ResponseModel::Found(i.peer_id@, addrs_model(i.multiaddrs@)),
        PeerInfoResponse::NotFound(q) => ResponseModel::NotFound(q.0@),
    }
}

/// The first of the first `n` entries whose peer is `request`, if any.
pub open spec fn find_peer(
    entries: Seq<(Seq<u8>, Seq<Seq<u8>>)>,
    request: Seq<u8>,
    n: nat,
) -> Option<(Seq<u8>, Seq<Seq<u8>>)>
    decreases n,
{
    if n == 0 {
        None
    } else {
        match find_peer(entries, request, (n - 1) as nat) {
            Some(e) => Some(e),
            None => if entries[n - 1].0 == request {
                Some(entries[n - 1])
            } else {
                None
            },
        }
    }
}

/// The answer to a lookup of `request`: when the routing table has no
/// bucket for it (`bucket` is `None`), this node is the one closest to it
/// and answers with itself; otherwise the first entry of the bucket for the
/// peer, if there is one.
pub open spec fn answer(
    request: Seq<u8>,
    bucket: Option<Seq<(Seq<u8>, Seq<Seq<u8>>)>>,
    local_peer_id: Seq<u8>,
    external_addrs: Seq<Seq<u8>>,
) -> ResponseModel {
    match bucket {
        None => ResponseModel::Found(local_peer_id, external_addrs),
        Some(entries) => match find_peer(entries, request, entries.len()) {
            Some(e) => ResponseModel::Found(e.0, e.1),
            None => ResponseModel::NotFound(request),
        },
    }
}

/// A bucket's entries as values.
pub open spec fn bucket_model(v: Seq<(Vec<u8>, Vec<Vec<u8>>)>) -> Seq<(Seq<u8>, Seq<Seq<u8>>)> {
    v.map_values(|e: (Vec<u8>, Vec<Vec<u8>>)| (e.0@, addrs_model(e.1@)))
}

fn copy_addrs(v: &Vec<Vec<u8>>) -> (out: Vec<Vec<u8>>)
    ensures
        addrs_model(out@) == addrs_model(v@),
{
    let mut out: Vec<Vec<u8>> = Vec::new();
    let mut i: usize = 0;
    while i < v.len()
        invariant
            i <= v.len(),
            addrs_model(out@) == addrs_model(v@).take(i as int),
        decreases v.len() - i,
    {
        let c = copy_range(v[i].as_slice(), 0, v[i].len());
        proof {
            assert(v@[i as int]@.subrange(0, v@[i as int]@.len() as int) =~= v@[i as int]@);
        }
        let ghost prev = out@;
        out.push(c);
        proof {
            assert(addrs_model(out@) =~= addrs_model(prev).push(c@));
            assert(addrs_model(v@).take(i + 1) =~= addrs_model(v@).take(i as int).push(v@[i as int]@));
        }
        i += 1;
    }
    proof {
        assert(addrs_model(v@).take(v.len() as int) =~= addrs_model(v@));
    }
    out
}

/// Answers a lookup of `request`, given what the routing table holds: no
/// bucket for the peer (`None`), or the entries of its bucket as peer
/// identifiers and addresses.
pub fn answer_request(
    request: PeerIdRequest,
    bucket: Option<&Vec<(Vec<u8>, Vec<Vec<u8>>)>>,
    local_peer_id: &Vec<u8>,
    external_addrs: &Vec<Vec<u8>>,
) -> (r: PeerInfoResponse)
    ensures
        response_model(r) == answer(
            request.0@,
            match bucket {
                Some(b) => Some(bucket_model(b@)),
                None => None,
            },
            local_peer_id@,
            addrs_model(external_addrs@),
        ),
{
    match bucket {
        None => {
            let peer_id = copy_range(local_peer_id.as_slice(), 0, local_peer_id.len());
            proof {
                assert(local_peer_id@.subrange(0, local_peer_id@.len() as int) =~= local_peer_id@);
            }
            PeerInfoResponse::Found(PeerInfo { peer_id, multiaddrs: copy_addrs(external_addrs) })
        },
        Some(entries) => {
            let ghost es = bucket_model(entries@);
            let mut i: usize = 0;
            while i < entries.len()
                invariant
                    i <= entries.len(),
                    es == bucket_model(entries@),
                    bucket == Some(entries),
                    find_peer(es, request.0@, i as nat) is None,
                decreases entries.len() - i,
            {
                if bytes_eq(entries[i].0.as_slice(), request.0.as_slice()) {
                    let peer_id = copy_range(entries[i].0.as_slice(), 0, entries[i].0.len());
                    proof {
                        assert(entries@[i as int].0@.subrange(0, entries@[i as int].0@.len() as int) =~= entries@[i as int].0@);
                    }
                    let multiaddrs = copy_addrs(&entries[i].1);
                    let resp = PeerInfoResponse::Found(PeerInfo { peer_id, multiaddrs });
                    proof {
                        let w = i as int;
                        assert(es[w] == (entries@[w].0@, addrs_model(entries@[w].1@)));
                        assert(find_peer(es, request.0@, (i + 1) as nat) == Some(es[w]));
                        lemma_find_peer_found(es, request.0@, (i + 1) as nat, es.len());
                    }
                    return resp;
                }
                i += 1;
            }
            PeerInfoResponse::NotFound(request)
        },
    }
}

/// Handles an event of the request-response protocol: a lookup request is
/// answered (the answer to send is returned); other events need no answer.
pub fn on_request_response_event(
    event: RequestResponseEvent,
    bucket: Option<&Vec<(Vec<u8>, Vec<Vec<u8>>)>>,
    local_peer_id: &Vec<u8>,
    external_addrs: &Vec<Vec<u8>>,
) -> (r: Option<PeerInfoResponse>)
    ensures
        match event {
            RequestResponseEvent::Request(q) => r matches Some(resp) && response_model(resp) == answer(
                q.0@,
                match bucket {
                    Some(b) => Some(bucket_model(b@)),
                    None => None,
                },
                local_peer_id@,
                addrs_model(external_addrs@),
            ),
            _ => r is None,
        },
{
    match event {
        RequestResponseEvent::Request(q) => Some(answer_request(q, bucket, local_peer_id, external_addrs)),
        _ => None,
    }
}

proof fn lemma_find_peer_found(entries: Seq<(Seq<u8>, Seq<Seq<u8>>)>, request: Seq<u8>, k: nat, n: nat)
    requires
        k <= n,
        find_peer(entries, request, k) is Some,
    ensures
        find_peer(entries, request, n) == find_peer(entries, request, k),
    decreases n - k,
{
    if k < n {
        lemma_find_peer_found(entries, request, k, (n - 1) as nat);
    }
}

} // verus!
