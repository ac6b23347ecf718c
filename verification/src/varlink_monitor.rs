//! Query results pushed by the `io.systemd.Resolve.Monitor` interface of
//! systemd-resolved, and what the monitor does with each of them.
//!
//! Every frame the monitor receives is an envelope; an envelope with an error
//! ends the monitoring, one without parameters is passed over, and one with a
//! query result may deliver a host name with the addresses it resolved to.
//! When the server says that no more frames follow, the monitoring ends.

use vstd::prelude::*;
use vstd::string::StringSliceAdditionalSpecFns;
use vstd::utf8::valid_utf8;
use crate::nft::set::addr_bytes;

verus! {

/// DNS resource record type of an IPv4 address.
pub const RR_A: u32 = 1;
/// DNS resource record type of an IPv6 address.
pub const RR_AAAA: u32 = 28;

/// Outcome of a DNS query.
#[derive(Debug)]
pub enum QueryResultState {
    Success,
    Other,
}

/// A question of a query: the name asked for.
#[derive(Debug)]
pub struct Question {
    pub name: String,
}

/// The key of a resource record.
#[derive(Debug)]
pub struct RrKey {
    pub ty: u32,
}

/// A resource record: its key and its raw address bytes.
#[derive(Debug)]
pub struct RrData {
    pub key: RrKey,
    pub address: Vec<u8>,
}

/// One entry of the answer of a query.
#[derive(Debug)]
pub struct RrEntry {
    pub rr: RrData,
}

/// The parameters of a frame.
#[derive(Debug)]
pub enum Payload {
    QueryResult { state: QueryResultState, question: Vec<Question>, answer: Vec<RrEntry> },
}

/// A frame received from the server.
#[derive(Debug)]
pub struct Envelope {
    pub parameters: Option<Payload>,
    /// Whether the server sends more frames after this one.
    pub continues: bool,
    /// Set on an error reply of the server.
    pub error: Option<String>,
}

/// A resolved host name with the addresses it resolved to.
#[derive(Debug)]
pub struct Resolved {
    pub hostname: String,
    pub addrs_v4: Vec<[u8; 4]>,
    pub addrs_v6: Vec<[u8; 16]>,
}

/// The addresses of the answer entries of type `ty` whose address is
/// `len` bytes long, in order.
pub open spec fn records_of(answer: Seq<RrEntry>, ty: u32, len: nat) -> Seq<Seq<u8>>
    decreases answer.len(),
{
    if answer.len() == 0 {
        Seq::empty()
    } else {
        let rest = records_of(answer.drop_last(), ty, len);
        let entry = answer.last();
        if entry.rr.key.ty == ty && entry.rr.address@.len() == len {
            rest.push(entry.rr.address@)
        } else {
            rest
        }
    }
}

/// What a query result delivers: for a successful query with a question, the
/// name asked first with the IPv4 addresses of its A records and the IPv6
/// addresses of its AAAA records, unless both are missing.
pub open spec fn query_outcome(
    state: QueryResultState,
    question: Seq<Question>,
    answer: Seq<RrEntry>,
) -> Option<(Seq<char>, Seq<Seq<u8>>, Seq<Seq<u8>>)> {
    let v4 = records_of(answer, RR_A, 4);
    let v6 = records_of(answer, RR_AAAA, 16);
    if state is Success && question.len() > 0 && (v4.len() > 0 || v6.len() > 0) {
        Some((question[0].name@, v4, v6))
    } else {
        None
    }
}

/// The answer entries that are records of type `ty` with an address of
/// `len` bytes are exactly the ones `records_of` picks, in order.
proof fn lemma_records_of_picks(
    answer: Seq<RrEntry>,
    ty: u32,
    len: nat,
    pick: spec_fn(RrEntry) -> Option<Seq<u8>>,
)
    requires
        forall|e: RrEntry|
            #[trigger] pick(e) == (if e.rr.key.ty == ty && e.rr.address@.len() == len {
                Some(e.rr.address@)
            } else {
                None
            }),
    ensures
        records_of(answer, ty, len) == answer.filter_map(pick),
        records_of(answer, ty, len).len() > 0 <==> exists|i: int|
            0 <= i < answer.len() && #[trigger] answer[i].rr.key.ty == ty
                && answer[i].rr.address@.len() == len,
    decreases answer.len(),
{
    if answer.len() > 0 {
        let init = answer.drop_last();
        lemma_records_of_picks(init, ty, len, pick);
        let e = answer.last();
        if e.rr.key.ty == ty && e.rr.address@.len() == len {
            assert(records_of(answer, ty, len) =~= answer.filter_map(pick));
            assert(answer[answer.len() - 1].rr.key.ty == ty);
        } else {
            assert(records_of(answer, ty, len) =~= answer.filter_map(pick));
            if exists|i: int|
                0 <= i < answer.len() && #[trigger] answer[i].rr.key.ty == ty
                    && answer[i].rr.address@.len() == len {
                let i = choose|i: int|
                    0 <= i < answer.len() && #[trigger] answer[i].rr.key.ty == ty
                        && answer[i].rr.address@.len() == len;
                assert(i < init.len());
                assert(init[i] == answer[i]);
            }
        }
        assert forall|i: int|
            0 <= i < init.len() && #[trigger] init[i].rr.key.ty == ty
                && init[i].rr.address@.len() == len implies answer[i].rr.key.ty == ty
                && answer[i].rr.address@.len() == len by {
            assert(init[i] == answer[i]);
        }
    }
}

/// A successful query result with a question delivers its first question's
/// name as soon as the answer holds one A record of four bytes or one AAAA
/// record of sixteen bytes, either kind alone being enough; the IPv4
/// addresses delivered are those of all the A records of four bytes and the
/// IPv6 addresses those of all the AAAA records of sixteen bytes, in the
/// order of the answer. Any other result delivers nothing.
pub proof fn law_query_outcome_delivers_every_address(
    state: QueryResultState,
    question: Seq<Question>,
    answer: Seq<RrEntry>,
)
    ensures
        query_outcome(state, question, answer) is Some <==> (state is Success && question.len() > 0
            && exists|i: int|
            0 <= i < answer.len() && ((#[trigger] answer[i].rr.key.ty == 1
                && answer[i].rr.address@.len() == 4) || (answer[i].rr.key.ty == 28
                && answer[i].rr.address@.len() == 16))),
        query_outcome(state, question, answer) matches Some((name, v4, v6)) ==> name
            == question[0].name@ && v4 == answer.filter_map(
            |e: RrEntry|
                if e.rr.key.ty == 1 && e.rr.address@.len() == 4 {
                    Some(e.rr.address@)
                } else {
                    None
                },
        ) && v6 == answer.filter_map(
            |e: RrEntry|
                if e.rr.key.ty == 28 && e.rr.address@.len() == 16 {
                    Some(e.rr.address@)
                } else {
                    None
                },
        ),
{
    let pick4 = |e: RrEntry|
        if e.rr.key.ty == 1 && e.rr.address@.len() == 4 {
            Some(e.rr.address@)
        } else {
            None
        };
    let pick6 = |e: RrEntry|
        if e.rr.key.ty == 28 && e.rr.address@.len() == 16 {
            Some(e.rr.address@)
        } else {
            None
        };
    lemma_records_of_picks(answer, RR_A, 4, pick4);
    lemma_records_of_picks(answer, RR_AAAA, 16, pick6);
}

/// A delivered result as plain values.
pub open spec fn resolved_view(r: Option<Resolved>) -> Option<(Seq<char>, Seq<Seq<u8>>, Seq<Seq<u8>>)> {
    match r {
        Some(res) => Some((res.hostname@, addr_bytes(res.addrs_v4@), addr_bytes(res.addrs_v6@))),
        None => None,
    }
}

/// Extracts from a query result the host name and the addresses to deliver.
pub fn handle_result(state: QueryResultState, question: Vec<Question>, answer: Vec<RrEntry>) -> (r:
    Option<Resolved>)
    ensures
        resolved_view(r) == query_outcome(state, question@, answer@),
{
    let success = match state {
        QueryResultState::Success => true,
        QueryResultState::Other => false,
    };
    if !success || question.len() == 0 {
        return None;
    }
    let hostname = question[0].name.clone();
    let mut addrs_v4: Vec<[u8; 4]> = Vec::new();
    let mut addrs_v6: Vec<[u8; 16]> = Vec::new();
    let mut k: usize = 0;
    while k < answer.len()
        invariant
            0 <= k <= answer.len(),
            addr_bytes(addrs_v4@) == records_of(answer@.take(k as int), RR_A, 4),
            addr_bytes(addrs_v6@) == records_of(answer@.take(k as int), RR_AAAA, 16),
        decreases answer.len() - k,
    {
        let entry = &answer[k];
        let address = &entry.rr.address;
        let ghost before = answer@.take(k as int);
        let ghost after = answer@.take(k + 1);
        assert(after.drop_last() =~= before);
        assert(after.last() == answer@[k as int]);
        if entry.rr.key.ty == RR_A && address.len() == 4 {
            let octets: [u8; 4] = [address[0], address[1], address[2], address[3]];
            assert(octets@ =~= address@);
            let ghost prev = addrs_v4@;
            addrs_v4.push(octets);
            assert(addr_bytes(addrs_v4@) =~= addr_bytes(prev).push(octets@));
        } else if entry.rr.key.ty == RR_AAAA && address.len() == 16 {
            let octets: [u8; 16] = [
                address[0],
                address[1],
                address[2],
                address[3],
                address[4],
                address[5],
                address[6],
                address[7],
                address[8],
                address[9],
                address[10],
                address[11],
                address[12],
                address[13],
                address[14],
                address[15],
            ];
            assert(octets@ =~= address@);
            let ghost prev = addrs_v6@;
            addrs_v6.push(octets);
            assert(addr_bytes(addrs_v6@) =~= addr_bytes(prev).push(octets@));
        }
        k = k + 1;
    }
    assert(answer@.take(answer.len() as int) =~= answer@);
    if addrs_v4.len() == 0 && addrs_v6.len() == 0 {
        return None;
    }
    Some(Resolved { hostname, addrs_v4, addrs_v6 })
}

/// `std::str::from_utf8`: the bytes as text when they are valid UTF-8.
///
/// Claimed of the outside code, as its documentation says: it succeeds
/// exactly on valid UTF-8, and the text it gives has those bytes.
#[verifier::external_body]
fn utf8_text(bytes: &[u8]) -> (text: Option<&str>)
    ensures
        match text {
            Some(t) => valid_utf8(bytes@) && t.spec_bytes() == bytes@,
            None => !valid_utf8(bytes@),
        },
{
    std::str::from_utf8(bytes).ok()
}

/// The text of a received frame, to be decoded as an envelope: an empty frame
/// and one that is not valid UTF-8 are passed over.
pub fn frame_text(frame: &[u8]) -> (text: Option<&str>)
    ensures
        match text {
            Some(t) => frame@.len() > 0 && valid_utf8(frame@) && t.spec_bytes() == frame@,
            None => frame@.len() == 0 || !valid_utf8(frame@),
        },
{
    if frame.len() == 0 {
        return None;
    }
    utf8_text(frame)
}

/// What the monitor does with one frame.
#[derive(Debug)]
pub enum MonitorStep {
    /// The server reported this error: the monitoring fails.
    ServerError(String),
    /// The frame carries nothing to act on: go on with the next one.
    Skip,
    /// The frame carried a query result: deliver what it resolved, if
    /// anything, and stop when `finished`.
    Handled { resolved: Option<Resolved>, finished: bool },
}

/// Decides what the monitor does with a frame.
pub fn monitor_step(envelope: Envelope) -> (step: MonitorStep)
    ensures
        match envelope.error {
            Some(err) => step == MonitorStep::ServerError(err),
            None => match envelope.parameters {
                None => step is Skip,
                Some(Payload::QueryResult { state, question, answer }) => match step {
                    MonitorStep::Handled { resolved, finished } => finished == !envelope.continues
                        && resolved_view(resolved) == query_outcome(state, question@, answer@),
                    _ => false,
                },
            },
        },
{
    if let Some(err) = envelope.error {
        return MonitorStep::ServerError(err);
    }
    match envelope.parameters {
        None => MonitorStep::Skip,
        Some(Payload::QueryResult { state, question, answer }) => {
            let resolved = handle_result(state, question, answer);
            MonitorStep::Handled { resolved, finished: !envelope.continues }
        },
    }
}

} // verus!
