//! The netlink message format: headers, attributes and the writers that
//! append them to a byte buffer, and the reading of a reply's header.
//!
//! Integers in netlink and netfilter headers are in host order (little endian
//! here), except the resource id of the netfilter header, which is big endian.
//! An attribute is its length (header included, padding excluded), its type,
//! its payload and zero bytes up to a multiple of four.

use vstd::prelude::*;

verus! {

/// Size of a netlink message header.
pub const NLMSG_HDR_SIZE: usize = 16;
/// The message is a request.
pub const NLM_F_REQUEST: u16 = 1;
/// The sender asks for an acknowledgement.
pub const NLM_F_ACK: u16 = 4;
/// Create what does not exist yet.
pub const NLM_F_CREATE: u16 = 0x400;
/// Message type of an error or acknowledgement.
pub const NLMSG_ERROR: u16 = 2;
/// Message type that ends a multipart reply.
pub const NLMSG_DONE: u16 = 3;
/// Message type that opens a netfilter batch.
pub const NFNL_MSG_BATCH_BEGIN: u16 = 16;
/// Message type that closes a netfilter batch.
pub const NFNL_MSG_BATCH_END: u16 = 17;
/// The nftables netfilter subsystem.
pub const NFNL_SUBSYS_NFTABLES: u16 = 10;
/// Flag of an attribute type: the payload is a list of attributes.
pub const NLA_F_NESTED: u16 = 0x8000;

/// A 16-bit value, little endian.
pub open spec fn le16(v: int) -> Seq<u8> {
    seq![(v % 256) as u8, ((v / 256) % 256) as u8]
}

/// A 16-bit value, big endian.
pub open spec fn be16(v: int) -> Seq<u8> {
    seq![((v / 256) % 256) as u8, (v % 256) as u8]
}

/// A 32-bit value, little endian.
pub open spec fn le32(v: int) -> Seq<u8> {
    seq![
        (v % 256) as u8,
        ((v / 256) % 256) as u8,
        ((v / 65536) % 256) as u8,
        ((v / 16777216) % 256) as u8,
    ]
}

/// The number of zero bytes that bring `n` up to a multiple of four.
pub open spec fn pad_len(n: nat) -> nat {
    ((4 - n % 4) % 4) as nat
}

/// Zero bytes that bring a payload of `n` bytes up to a multiple of four.
pub open spec fn padding(n: nat) -> Seq<u8> {
    Seq::new(pad_len(n), |i: int| 0u8)
}

/// An attribute of type `ty` with the given payload.
pub open spec fn attr(ty: int, payload: Seq<u8>) -> Seq<u8> {
    le16(4 + payload.len() as int) + le16(ty) + payload + padding(payload.len())
}

/// An attribute of type `ty` whose payload is a list of attributes.
pub open spec fn nested(ty: int, payload: Seq<u8>) -> Seq<u8> {
    attr(ty + NLA_F_NESTED, payload)
}

/// A text as an attribute payload: its bytes and a terminating nul.
pub open spec fn strz(s: Seq<u8>) -> Seq<u8> {
    s.push(0u8)
}

/// A netlink message: the header (length, type, flags, sequence number and a
/// zero port id) followed by the body.
pub open spec fn nlmsg(ty: int, flags: int, seq: int, body: Seq<u8>) -> Seq<u8> {
    le32(16 + body.len() as int) + le16(ty) + le16(flags) + le32(seq) + le32(0) + body
}

/// The netfilter header: address family, version 0, resource id.
pub open spec fn nfgenmsg(family: u8, res_id: int) -> Seq<u8> {
    seq![family, 0u8] + be16(res_id)
}

/// The length field of the header a message starts with.
pub open spec fn header_len_field(msg: Seq<u8>) -> int {
    msg[0] + 256 * msg[1] + 65536 * msg[2] + 16777216 * msg[3]
}

proof fn lemma_le32_value(v: u32)
    ensures
        (v % 256) + 256 * ((v / 256) % 256) + 65536 * ((v / 65536) % 256) + 16777216 * ((v
            / 16777216) % 256) == v,
{
    assert((v % 256) + 256 * ((v / 256) % 256) + 65536 * ((v / 65536) % 256) + 16777216 * ((v
        / 16777216) % 256) == v) by (bit_vector);
}

/// Every message frames itself: the length in its header is the number of
/// bytes it takes, so a reader can find where the next message begins.
pub proof fn law_message_frames_itself(ty: int, flags: int, seq: int, body: Seq<u8>)
    requires
        16 + body.len() <= u32::MAX,
    ensures
        header_len_field(nlmsg(ty, flags, seq, body)) == nlmsg(ty, flags, seq, body).len(),
{
    let v = (16 + body.len()) as u32;
    lemma_le32_value(v);
    let m = nlmsg(ty, flags, seq, body);
    assert(m[0] == le32(v as int)[0]);
    assert(m[1] == le32(v as int)[1]);
    assert(m[2] == le32(v as int)[2]);
    assert(m[3] == le32(v as int)[3]);
}

/// Appends a 16-bit value, little endian.
pub fn put_le16(buf: &mut Vec<u8>, v: u16)
    ensures
        final(buf)@ == old(buf)@ + le16(v as int),
{
    buf.push((v % 256) as u8);
    buf.push((v / 256) as u8);
    assert(final(buf)@ =~= old(buf)@ + le16(v as int));
}

/// Appends a 16-bit value, big endian.
pub fn put_be16(buf: &mut Vec<u8>, v: u16)
    ensures
        final(buf)@ == old(buf)@ + be16(v as int),
{
    buf.push((v / 256) as u8);
    buf.push((v % 256) as u8);
    assert(final(buf)@ =~= old(buf)@ + be16(v as int));
}

/// Appends a 32-bit value, little endian.
pub fn put_le32(buf: &mut Vec<u8>, v: u32)
    ensures
        final(buf)@ == old(buf)@ + le32(v as int),
{
    buf.push((v % 256) as u8);
    buf.push(((v / 256) % 256) as u8);
    buf.push(((v / 65536) % 256) as u8);
    buf.push((v / 16777216) as u8);
    assert(final(buf)@ =~= old(buf)@ + le32(v as int));
}

/// Appends bytes.
pub fn put_bytes(buf: &mut Vec<u8>, data: &[u8])
    ensures
        final(buf)@ == old(buf)@ + data@,
{
    let mut k: usize = 0;
    while k < data.len()
        invariant
            0 <= k <= data.len(),
            buf@ == old(buf)@ + data@.take(k as int),
        decreases data.len() - k,
    {
        buf.push(data[k]);
        k = k + 1;
        assert(buf@ =~= old(buf)@ + data@.take(k as int));
    }
    assert(data@.take(data.len() as int) =~= data@);
}

/// Appends the zero bytes that follow a payload of `n` bytes.
pub fn put_padding(buf: &mut Vec<u8>, n: usize)
    ensures
        final(buf)@ == old(buf)@ + padding(n as nat),
{
    let count = (4 - n % 4) % 4;
    let mut k: usize = 0;
    while k < count
        invariant
            0 <= k <= count,
            count == pad_len(n as nat),
            buf@ == old(buf)@ + Seq::new(k as nat, |i: int| 0u8),
        decreases count - k,
    {
        buf.push(0u8);
        k = k + 1;
        assert(buf@ =~= old(buf)@ + Seq::new(k as nat, |i: int| 0u8));
    }
}

/// Appends an attribute of type `ty` with the given payload.
pub fn put_attr(buf: &mut Vec<u8>, ty: u16, payload: &[u8])
    requires
        4 + payload.len() <= u16::MAX,
    ensures
        final(buf)@ == old(buf)@ + attr(ty as int, payload@),
{
    put_le16(buf, (4 + payload.len()) as u16);
    put_le16(buf, ty);
    put_bytes(buf, payload);
    put_padding(buf, payload.len());
    assert(final(buf)@ =~= old(buf)@ + attr(ty as int, payload@));
}

/// Appends an attribute of type `ty` whose payload is the text `s` with a
/// terminating nul.
pub fn put_attr_strz(buf: &mut Vec<u8>, ty: u16, s: &[u8])
    requires
        5 + s.len() <= u16::MAX,
    ensures
        final(buf)@ == old(buf)@ + attr(ty as int, strz(s@)),
{
    put_le16(buf, (5 + s.len()) as u16);
    put_le16(buf, ty);
    put_bytes(buf, s);
    buf.push(0u8);
    put_padding(buf, s.len() + 1);
    assert(final(buf)@ =~= old(buf)@ + attr(ty as int, strz(s@)));
}

/// Appends the header of a nested attribute of type `ty` whose payload (a
/// list of attributes, so a multiple of four bytes long) is `payload_len`
/// bytes long; the payload itself is appended afterwards.
pub fn put_nested_header(buf: &mut Vec<u8>, ty: u16, payload_len: usize)
    requires
        ty < NLA_F_NESTED,
        4 + payload_len <= u16::MAX,
    ensures
        final(buf)@ == old(buf)@ + le16(4 + payload_len as int) + le16(ty + NLA_F_NESTED),
{
    put_le16(buf, (4 + payload_len) as u16);
    put_le16(buf, ty + NLA_F_NESTED);
    assert(final(buf)@ =~= old(buf)@ + le16(4 + payload_len as int) + le16(ty + NLA_F_NESTED));
}

/// Appends a netlink message header for a message of `len` bytes in all.
pub fn put_nlmsghdr(buf: &mut Vec<u8>, len: u32, ty: u16, flags: u16, seq: u32)
    ensures
        final(buf)@ == old(buf)@ + le32(len as int) + le16(ty as int) + le16(flags as int) + le32(
            seq as int,
        ) + le32(0),
{
    put_le32(buf, len);
    put_le16(buf, ty);
    put_le16(buf, flags);
    put_le32(buf, seq);
    put_le32(buf, 0);
    assert(final(buf)@ =~= old(buf)@ + le32(len as int) + le16(ty as int) + le16(flags as int)
        + le32(seq as int) + le32(0));
}

/// Appends a netfilter header.
pub fn put_nfgenmsg(buf: &mut Vec<u8>, family: u8, res_id: u16)
    ensures
        final(buf)@ == old(buf)@ + nfgenmsg(family, res_id as int),
{
    buf.push(family);
    buf.push(0u8);
    put_be16(buf, res_id);
    assert(final(buf)@ =~= old(buf)@ + nfgenmsg(family, res_id as int));
}

// ---------------------------------------------------------------------------
// Reading a reply
// ---------------------------------------------------------------------------

/// The message type in the header a reply starts with, when the reply holds a
/// whole header.
pub open spec fn reply_type(reply: Seq<u8>) -> Option<int> {
    if reply.len() >= 16 {
        Some(reply[4] + 256 * reply[5])
    } else {
        None
    }
}

/// The signed 32-bit little-endian value at `at`.
pub open spec fn le_i32_at(b: Seq<u8>, at: int) -> int {
    let u = b[at] + 256 * b[at + 1] + 65536 * b[at + 2] + 16777216 * b[at + 3];
    if u >= 0x8000_0000 {
        u - 0x1_0000_0000
    } else {
        u
    }
}

/// The error number of a reply that is an error message (zero for an
/// acknowledgement): the signed value that follows its header.
pub open spec fn reply_error(reply: Seq<u8>) -> Option<int> {
    if reply_type(reply) == Some(NLMSG_ERROR as int) && reply.len() >= 20 {
        Some(le_i32_at(reply, 16))
    } else {
        None
    }
}

/// The type of the message a reply starts with.
pub fn get_nlmsg_type(reply: &[u8]) -> (ty: Option<u16>)
    ensures
        match ty {
            Some(t) => reply_type(reply@) == Some(t as int),
            None => reply_type(reply@) is None,
        },
{
    if reply.len() >= NLMSG_HDR_SIZE {
        Some(reply[4] as u16 + 256 * reply[5] as u16)
    } else {
        None
    }
}

/// Whether a reply is the end of a multipart reply.
pub fn is_nlmsg_done(reply: &[u8]) -> (done: bool)
    ensures
        done == (reply_type(reply@) == Some(NLMSG_DONE as int)),
{
    match get_nlmsg_type(reply) {
        Some(t) => t == NLMSG_DONE,
        None => false,
    }
}

/// The error number carried by a reply that is an error message.
pub fn parse_nlmsg_error(reply: &[u8]) -> (code: Option<i32>)
    ensures
        match code {
            Some(c) => reply_error(reply@) == Some(c as int),
            None => reply_error(reply@) is None,
        },
{
    match get_nlmsg_type(reply) {
        Some(t) => {
            if t == NLMSG_ERROR && reply.len() >= 20 {
                let u: u32 = reply[16] as u32 + 256 * reply[17] as u32 + 65536 * reply[18] as u32
                    + 16777216 * reply[19] as u32;
                if u < 0x8000_0000 {
                    Some(u as i32)
                } else {
                    Some((u - 0x8000_0000) as i32 - 0x7fff_ffff - 1)
                }
            } else {
                None
            }
        },
        None => None,
    }
}

} // verus!
