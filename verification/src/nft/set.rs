//! Adding addresses to an nftables set: the request batch and the reading of
//! the kernel's replies.
//!
//! A request is a netfilter batch: a batch-begin message, one new-set-element
//! message for the IPv4 set when there are IPv4 addresses, one for the IPv6
//! set when there are IPv6 addresses, and a batch-end message. Each
//! new-set-element message names the table and the set and lists one element
//! per address, whose key is the address bytes.

use vstd::prelude::*;
use vstd::string::StringSliceAdditionalSpecFns;
use crate::nft::error::NftError;
use crate::nft::netlink::{
    attr, get_nlmsg_type, header_len_field, is_nlmsg_done, law_message_frames_itself, nested,
    nfgenmsg, nlmsg, padding, pad_len, le16, le32, parse_nlmsg_error, put_attr, put_attr_strz, put_bytes, put_nested_header, put_nfgenmsg, put_nlmsghdr, reply_error,
    reply_type, strz, NFNL_MSG_BATCH_BEGIN, NFNL_MSG_BATCH_END, NFNL_SUBSYS_NFTABLES,
    NLMSG_DONE, NLMSG_ERROR, NLMSG_HDR_SIZE, NLM_F_ACK, NLM_F_CREATE, NLM_F_REQUEST,
};

verus! {

/// nftables command: add elements to a set.
pub const NFT_MSG_NEWSETELEM: u16 = 12;
/// Set-element-list attribute: the table name.
pub const NFTA_SET_ELEM_LIST_TABLE: u16 = 1;
/// Set-element-list attribute: the set name.
pub const NFTA_SET_ELEM_LIST_SET: u16 = 2;
/// Set-element-list attribute: the list of elements.
pub const NFTA_SET_ELEM_LIST_ELEMENTS: u16 = 3;
/// Set-element attribute: the key.
pub const NFTA_SET_ELEM_KEY: u16 = 1;
/// Data attribute: a value.
pub const NFTA_DATA_VALUE: u16 = 1;
/// Address family of tables of family `inet`.
pub const NFPROTO_INET: u8 = 1;

/// `libc::AF_UNSPEC`, the unspecified address family.
///
/// Claimed of the outside code: the constant is zero, as libc defines it.
#[verifier::external_body]
fn af_unspec() -> (family: u8)
    ensures
        family == 0,
{
    libc::AF_UNSPEC as u8
}

/// `libc::ENOENT`, the error number of a missing object.
///
/// Claimed of the outside code: the constant is two, as libc defines it.
#[verifier::external_body]
fn enoent() -> (errno: i32)
    ensures
        errno == 2,
{
    libc::ENOENT
}

/// The netlink message type of an nftables command: the nftables subsystem in
/// the high byte, the command in the low byte.
pub fn nft_msg_type(cmd: u16) -> (ty: u16)
    ensures
        ty == ((NFNL_SUBSYS_NFTABLES << 8u16) | cmd),
        cmd < 256 ==> ty == 256 * NFNL_SUBSYS_NFTABLES + cmd,
{
    let ty = (NFNL_SUBSYS_NFTABLES << 8u16) | cmd;
    assert(cmd < 256 ==> ((10u16 << 8u16) | cmd) == 2560 + cmd) by (bit_vector);
    ty
}

/// One element of a set, keyed by the given address bytes.
pub open spec fn set_elem(addr: Seq<u8>) -> Seq<u8> {
    nested(0, nested(NFTA_SET_ELEM_KEY as int, attr(NFTA_DATA_VALUE as int, addr)))
}

/// The elements for a list of addresses, in order.
pub open spec fn set_elems(addrs: Seq<Seq<u8>>) -> Seq<u8>
    decreases addrs.len(),
{
    if addrs.len() == 0 {
        Seq::empty()
    } else {
        set_elems(addrs.drop_last()) + set_elem(addrs.last())
    }
}

/// The message type of a new-set-element command.
pub open spec fn newsetelem_type() -> int {
    256 * NFNL_SUBSYS_NFTABLES + NFT_MSG_NEWSETELEM
}

/// The flags of a new-set-element message: a request, acknowledged, that
/// creates what is missing.
pub open spec fn newsetelem_flags() -> int {
    NLM_F_REQUEST + NLM_F_ACK + NLM_F_CREATE
}

/// The message that adds `addrs` to set `set` of table `table`.
pub open spec fn setelem_msg(table: Seq<u8>, set: Seq<u8>, addrs: Seq<Seq<u8>>) -> Seq<u8> {
    nlmsg(newsetelem_type(), newsetelem_flags(), 1, setelem_body(table, set, addrs))
}

/// The message that opens a batch for the nftables subsystem.
pub open spec fn batch_begin() -> Seq<u8> {
    nlmsg(NFNL_MSG_BATCH_BEGIN as int, NLM_F_REQUEST as int, 0, nfgenmsg(0, NFNL_SUBSYS_NFTABLES as int))
}

/// The message that closes the batch.
pub open spec fn batch_end() -> Seq<u8> {
    nlmsg(NFNL_MSG_BATCH_END as int, NLM_F_REQUEST as int, 2, nfgenmsg(0, NFNL_SUBSYS_NFTABLES as int))
}

/// The whole request that adds IPv4 addresses to one set and IPv6 addresses
/// to another, both in the same table.
pub open spec fn setelem_batch(
    table: Seq<u8>,
    set_v4: Seq<u8>,
    set_v6: Seq<u8>,
    addrs_v4: Seq<Seq<u8>>,
    addrs_v6: Seq<Seq<u8>>,
) -> Seq<u8> {
    batch_begin() + (if addrs_v4.len() > 0 {
        setelem_msg(table, set_v4, addrs_v4)
    } else {
        Seq::empty()
    }) + (if addrs_v6.len() > 0 {
        setelem_msg(table, set_v6, addrs_v6)
    } else {
        Seq::empty()
    }) + batch_end()
}

/// The size of one element for an address of `addr_len` bytes.
pub open spec fn set_elem_size(addr_len: nat) -> nat {
    addr_len + 12
}

/// Every length field of the new-set-element message for `count` addresses
/// of `addr_len` bytes, with names of the given lengths, fits in 16 bits.
pub open spec fn setelem_msg_fits(table_len: nat, set_len: nat, count: nat, addr_len: nat) -> bool {
    &&& 5 + table_len <= u16::MAX
    &&& 5 + set_len <= u16::MAX
    &&& 4 + count * set_elem_size(addr_len) <= u16::MAX
}

/// Every length field of the batch fits in 16 bits.
pub open spec fn batch_fits(
    table_len: nat,
    set_v4_len: nat,
    set_v6_len: nat,
    count_v4: nat,
    count_v6: nat,
) -> bool {
    &&& count_v4 > 0 ==> setelem_msg_fits(table_len, set_v4_len, count_v4, 4)
    &&& count_v6 > 0 ==> setelem_msg_fits(table_len, set_v6_len, count_v6, 16)
}

/// The addresses of a list, as byte sequences.
pub open spec fn addr_bytes<const N: usize>(addrs: Seq<[u8; N]>) -> Seq<Seq<u8>> {
    addrs.map_values(|a: [u8; N]| a@)
}

proof fn lemma_padding_empty(n: nat)
    requires
        n % 4 == 0,
    ensures
        padding(n) == Seq::<u8>::empty(),
{
    assert(padding(n) =~= Seq::<u8>::empty());
}

proof fn lemma_set_elems_len(addrs: Seq<Seq<u8>>, addr_len: nat)
    requires
        forall|k: int| 0 <= k < addrs.len() ==> #[trigger] addrs[k].len() == addr_len,
        addr_len % 4 == 0,
    ensures
        set_elems(addrs).len() == addrs.len() * set_elem_size(addr_len),
    decreases addrs.len(),
{
    if addrs.len() > 0 {
        let init = addrs.drop_last();
        assert forall|k: int| 0 <= k < init.len() implies #[trigger] init[k].len() == addr_len by {
            assert(init[k] == addrs[k]);
        }
        lemma_set_elems_len(init, addr_len);
        let a = addrs.last();
        lemma_padding_empty(a.len());
        lemma_padding_empty(a.len() + 4);
        lemma_padding_empty(a.len() + 8);
        assert(set_elems(addrs).len() == init.len() * set_elem_size(addr_len) + set_elem_size(
            addr_len,
        )) by (nonlinear_arith)
            requires
                set_elems(addrs).len() == set_elems(init).len() + set_elem(a).len(),
                set_elems(init).len() == init.len() * set_elem_size(addr_len),
                set_elem(a).len() == set_elem_size(addr_len),
        ;
        assert(addrs.len() * set_elem_size(addr_len) == init.len() * set_elem_size(addr_len)
            + set_elem_size(addr_len)) by (nonlinear_arith)
            requires
                addrs.len() == init.len() + 1,
        ;
    }
}

/// The message that adds addresses to a set carries its own size in its
/// header, as do the batch markers around it.
pub proof fn law_batch_messages_frame_themselves(
    table: Seq<u8>,
    set: Seq<u8>,
    addrs: Seq<Seq<u8>>,
    addr_len: nat,
)
    requires
        addr_len == 4 || addr_len == 16,
        forall|k: int| 0 <= k < addrs.len() ==> #[trigger] addrs[k].len() == addr_len,
        setelem_msg_fits(table.len(), set.len(), addrs.len(), addr_len),
    ensures
        header_len_field(setelem_msg(table, set, addrs)) == setelem_msg(table, set, addrs).len(),
        header_len_field(batch_begin()) == batch_begin().len(),
        header_len_field(batch_end()) == batch_end().len(),
{
    lemma_set_elems_len(addrs, addr_len);
    let body = setelem_body(table, set, addrs);
    assert(body.len() <= 4 + 3 * 0x10003);
    law_message_frames_itself(newsetelem_type(), newsetelem_flags(), 1, body);
    law_message_frames_itself(
        NFNL_MSG_BATCH_BEGIN as int,
        NLM_F_REQUEST as int,
        0,
        nfgenmsg(0, NFNL_SUBSYS_NFTABLES as int),
    );
    law_message_frames_itself(
        NFNL_MSG_BATCH_END as int,
        NLM_F_REQUEST as int,
        2,
        nfgenmsg(0, NFNL_SUBSYS_NFTABLES as int),
    );
}

// ---------------------------------------------------------------------------
// Reading a request back
// ---------------------------------------------------------------------------

/// Whether a netlink message asks for an acknowledgement (`NLM_F_ACK` in the
/// flags of its header).
pub open spec fn asks_ack(m: Seq<u8>) -> bool {
    (m[6] / 4) % 2 == 1
}

/// The messages of a byte stream, cut where the length in each header says;
/// the cutting stops at a header whose length is impossible.
pub open spec fn split_messages(b: Seq<u8>) -> Seq<Seq<u8>>
    decreases b.len(),
{
    if b.len() < 16 {
        Seq::empty()
    } else {
        let n = header_len_field(b);
        if 16 <= n <= b.len() {
            seq![b.take(n)] + split_messages(b.skip(n))
        } else {
            Seq::empty()
        }
    }
}

/// A new-set-element message `m`, read at the places the format gives them,
/// names table `table` and set `set` (each followed by a nul), and ends with
/// the list of its elements: one element per address, of `addr_len + 12`
/// bytes, whose key is the address, in order.
pub open spec fn message_adds(
    m: Seq<u8>,
    table: Seq<u8>,
    set: Seq<u8>,
    addrs: Seq<Seq<u8>>,
    addr_len: nat,
) -> bool {
    let t = table.len() as int;
    let s = set.len() as int;
    let set_at = 28 + (t + 4) / 4 * 4;
    let stride = addr_len + 12;
    let elems_at = m.len() - addrs.len() * stride;
    &&& set_at + s < elems_at - 4
    &&& m.subrange(24, 24 + t) == table
    &&& m[24 + t] == 0
    &&& m.subrange(set_at, set_at + s) == set
    &&& m[set_at + s] == 0
    &&& m[elems_at - 4] + 256 * m[elems_at - 3] == 4 + addrs.len() * stride
    &&& m[elems_at - 2] == NFTA_SET_ELEM_LIST_ELEMENTS
    &&& m[elems_at - 1] == 0x80
    &&& forall|k: int, j: int|
        0 <= k < addrs.len() && 0 <= j < addr_len ==> m[elems_at + stride * k + 12 + j]
            == #[trigger] addrs[k][j]
}

proof fn lemma_set_elem_layout(a: Seq<u8>)
    requires
        a.len() == 4 || a.len() == 16,
    ensures
        set_elem(a).len() == a.len() + 12,
        forall|j: int| 0 <= j < a.len() ==> set_elem(a)[12 + j] == a[j],
{
    lemma_padding_empty(a.len());
    lemma_padding_empty(a.len() + 4);
    lemma_padding_empty(a.len() + 8);
    let inner = attr(NFTA_DATA_VALUE as int, a);
    let key = nested(NFTA_SET_ELEM_KEY as int, inner);
    let n = a.len() as int;
    let hdr = le16(n + 12) + le16(0x8000) + le16(n + 8) + le16(
        NFTA_SET_ELEM_KEY + 0x8000,
    ) + le16(n + 4) + le16(NFTA_DATA_VALUE as int);
    assert(set_elem(a) =~= hdr + a);
}

#[verifier::rlimit(40)]
proof fn lemma_set_elems_layout(addrs: Seq<Seq<u8>>, addr_len: nat)
    requires
        addr_len == 4 || addr_len == 16,
        forall|k: int| 0 <= k < addrs.len() ==> #[trigger] addrs[k].len() == addr_len,
    ensures
        set_elems(addrs).len() == addrs.len() * (addr_len + 12),
        forall|k: int, j: int|
            0 <= k < addrs.len() && 0 <= j < addr_len ==> set_elems(addrs)[(addr_len + 12) * k + 12
                + j] == #[trigger] addrs[k][j],
    decreases addrs.len(),
{
    lemma_set_elems_len(addrs, addr_len);
    if addrs.len() > 0 {
        let init = addrs.drop_last();
        let a = addrs.last();
        let stride = addr_len + 12;
        assert forall|k: int| 0 <= k < init.len() implies #[trigger] init[k].len() == addr_len by {
            assert(init[k] == addrs[k]);
        }
        lemma_set_elems_layout(init, addr_len);
        lemma_set_elem_layout(a);
        let whole = set_elems(addrs);
        assert(whole == set_elems(init) + set_elem(a));
        assert forall|k: int, j: int|
            0 <= k < addrs.len() && 0 <= j < addr_len implies whole[stride * k + 12 + j]
                == #[trigger] addrs[k][j] by {
            if k < init.len() {
                assert(stride * k + 12 + j < stride * init.len()) by (nonlinear_arith)
                    requires
                        k + 1 <= init.len(),
                        12 + j < stride,
                ;
                assert(0 <= stride * k) by (nonlinear_arith)
                    requires
                        0 <= k,
                        0 <= stride,
                ;
                assert(init[k] == addrs[k]);
            } else {
                assert(k == init.len());
                assert(stride * k + 12 + j - set_elems(init).len() == 12 + j) by (nonlinear_arith)
                    requires
                        k == init.len(),
                        set_elems(init).len() == init.len() * stride,
                ;
                assert(addrs[k] == a);
            }
        }
    }
}

proof fn lemma_round_up(n: int)
    requires
        n >= 0,
    ensures
        n + pad_len(n as nat) == (n + 3) / 4 * 4,
        n <= (n + 3) / 4 * 4,
{
}

proof fn lemma_le16_value(v: int)
    requires
        0 <= v < 0x10000,
    ensures
        le16(v)[0] + 256 * le16(v)[1] == v,
{
}

/// The header of a new-set-element message, followed by the netfilter
/// header: twenty bytes.
spec fn setelem_front(table: Seq<u8>, set: Seq<u8>, addrs: Seq<Seq<u8>>) -> Seq<u8> {
    le32(16 + setelem_body(table, set, addrs).len() as int) + le16(newsetelem_type()) + le16(
        newsetelem_flags(),
    ) + le32(1) + le32(0) + nfgenmsg(NFPROTO_INET, 0)
}

#[verifier::rlimit(40)]
proof fn lemma_setelem_msg_parts(table: Seq<u8>, set: Seq<u8>, addrs: Seq<Seq<u8>>)
    ensures
        setelem_msg(table, set, addrs) == setelem_front(table, set, addrs) + (attr(
            NFTA_SET_ELEM_LIST_TABLE as int,
            strz(table),
        ) + (attr(NFTA_SET_ELEM_LIST_SET as int, strz(set)) + nested(
            NFTA_SET_ELEM_LIST_ELEMENTS as int,
            set_elems(addrs),
        ))),
        setelem_front(table, set, addrs).len() == 20,
{
    assert(setelem_msg(table, set, addrs) =~= setelem_front(table, set, addrs) + (attr(
        NFTA_SET_ELEM_LIST_TABLE as int,
        strz(table),
    ) + (attr(NFTA_SET_ELEM_LIST_SET as int, strz(set)) + nested(
        NFTA_SET_ELEM_LIST_ELEMENTS as int,
        set_elems(addrs),
    ))));
}

#[verifier::rlimit(40)]
proof fn lemma_setelem_msg_header(table: Seq<u8>, set: Seq<u8>, addrs: Seq<Seq<u8>>)
    ensures
        setelem_msg(table, set, addrs).len() >= 20,
        reply_type(setelem_msg(table, set, addrs)) == Some(
            256 * NFNL_SUBSYS_NFTABLES + NFT_MSG_NEWSETELEM as int,
        ),
        asks_ack(setelem_msg(table, set, addrs)),
{
    lemma_setelem_msg_parts(table, set, addrs);
    let m = setelem_msg(table, set, addrs);
    let f = setelem_front(table, set, addrs);
    assert(m[4] == f[4]);
    assert(m[5] == f[5]);
    assert(m[6] == f[6]);
    assert(f[4] == le16(newsetelem_type())[0]);
    assert(f[5] == le16(newsetelem_type())[1]);
    assert(f[6] == le16(newsetelem_flags())[0]);
}

proof fn lemma_name_attr(ty: int, name: Seq<u8>)
    ensures
        attr(ty, strz(name)).len() == 4 + (name.len() + 4) / 4 * 4,
        attr(ty, strz(name)).len() > name.len() + 4,
        forall|i: int| 0 <= i < name.len() ==> #[trigger] attr(ty, strz(name))[4 + i] == name[i],
        attr(ty, strz(name))[4 + name.len() as int] == 0,
{
    lemma_round_up(name.len() as int + 1);
    let a = attr(ty, strz(name));
    assert forall|i: int| 0 <= i < name.len() implies #[trigger] a[4 + i] == name[i] by {
        assert(a[4 + i] == strz(name)[i]);
    }
    assert(a[4 + name.len() as int] == strz(name)[name.len() as int]);
}

#[verifier::rlimit(40)]
proof fn lemma_setelem_msg_names(table: Seq<u8>, set: Seq<u8>, addrs: Seq<Seq<u8>>)
    ensures
        ({
            let m = setelem_msg(table, set, addrs);
            let t = table.len() as int;
            let s = set.len() as int;
            let set_at = 28 + (t + 4) / 4 * 4;
            &&& m.len() == set_at - 4 + 4 + (s + 4) / 4 * 4 + nested(
                NFTA_SET_ELEM_LIST_ELEMENTS as int,
                set_elems(addrs),
            ).len()
            &&& m.subrange(24, 24 + t) == table
            &&& m[24 + t] == 0
            &&& m.subrange(set_at, set_at + s) == set
            &&& m[set_at + s] == 0
        }),
{
    lemma_setelem_msg_parts(table, set, addrs);
    let m = setelem_msg(table, set, addrs);
    let at = attr(NFTA_SET_ELEM_LIST_TABLE as int, strz(table));
    let a_s = attr(NFTA_SET_ELEM_LIST_SET as int, strz(set));
    let nl = nested(NFTA_SET_ELEM_LIST_ELEMENTS as int, set_elems(addrs));
    lemma_name_attr(NFTA_SET_ELEM_LIST_TABLE as int, table);
    lemma_name_attr(NFTA_SET_ELEM_LIST_SET as int, set);
    let t = table.len() as int;
    let s = set.len() as int;
    let set_at = 28 + (t + 4) / 4 * 4;
    assert forall|i: int| 0 <= i <= t implies #[trigger] m[24 + i] == at[4 + i] by {}
    assert(m.subrange(24, 24 + t) =~= table);
    assert forall|i: int| 0 <= i <= s implies #[trigger] m[set_at + i] == a_s[4 + i] by {
        assert(m[set_at + i] == (a_s + nl)[4 + i]);
    }
    assert(m.subrange(set_at, set_at + s) =~= set);
}

#[verifier::rlimit(60)]
proof fn lemma_setelem_msg_elems(
    table: Seq<u8>,
    set: Seq<u8>,
    addrs: Seq<Seq<u8>>,
    addr_len: nat,
)
    requires
        addr_len == 4 || addr_len == 16,
        forall|k: int| 0 <= k < addrs.len() ==> #[trigger] addrs[k].len() == addr_len,
        setelem_msg_fits(table.len(), set.len(), addrs.len(), addr_len),
    ensures
        ({
            let m = setelem_msg(table, set, addrs);
            let stride = addr_len + 12;
            let elems_at = m.len() - addrs.len() * stride;
            &&& m.len() == elems_at + set_elems(addrs).len()
            &&& m.len() - set_elems(addrs).len() - 4 == 24 + attr(
                NFTA_SET_ELEM_LIST_TABLE as int,
                strz(table),
            ).len() + attr(NFTA_SET_ELEM_LIST_SET as int, strz(set)).len() - 4
            &&& m[elems_at - 4] + 256 * m[elems_at - 3] == 4 + addrs.len() * stride
            &&& m[elems_at - 2] == NFTA_SET_ELEM_LIST_ELEMENTS
            &&& m[elems_at - 1] == 0x80
            &&& forall|k: int, j: int|
                0 <= k < addrs.len() && 0 <= j < addr_len ==> m[elems_at + stride * k + 12 + j]
                    == #[trigger] addrs[k][j]
        }),
{
    lemma_set_elems_layout(addrs, addr_len);
    let stride = addr_len + 12;
    let elems = set_elems(addrs);
    assert(elems.len() % 4 == 0) by (nonlinear_arith)
        requires
            elems.len() == addrs.len() * stride,
            stride == 16 || stride == 28,
    ;
    lemma_padding_empty(elems.len());
    lemma_setelem_msg_parts(table, set, addrs);
    let m = setelem_msg(table, set, addrs);
    let at = attr(NFTA_SET_ELEM_LIST_TABLE as int, strz(table));
    let a_s = attr(NFTA_SET_ELEM_LIST_SET as int, strz(set));
    let head = le16(4 + elems.len() as int) + le16(NFTA_SET_ELEM_LIST_ELEMENTS + 0x8000);
    let front = setelem_front(table, set, addrs) + at + a_s + head;
    assert(nested(NFTA_SET_ELEM_LIST_ELEMENTS as int, elems) =~= head + elems);
    assert(m =~= front + elems);
    let elems_at = front.len() as int;
    lemma_le16_value(4 + elems.len() as int);
    assert(m[elems_at - 4] == head[0]);
    assert(m[elems_at - 3] == head[1]);
    assert(m[elems_at - 2] == head[2]);
    assert(m[elems_at - 1] == head[3]);
    assert forall|k: int, j: int|
        0 <= k < addrs.len() && 0 <= j < addr_len implies m[elems_at + stride * k + 12 + j]
            == #[trigger] addrs[k][j] by {
        assert(0 <= stride * k + 12 + j < elems.len()) by (nonlinear_arith)
            requires
                0 <= k < addrs.len(),
                0 <= j < addr_len,
                stride == addr_len + 12,
                elems.len() == addrs.len() * stride,
        ;
        assert(m[elems_at + stride * k + 12 + j] == elems[stride * k + 12 + j]);
    }
}

/// Where the names and the addresses stand in a new-set-element message.
#[verifier::rlimit(40)]
proof fn lemma_setelem_msg_layout(
    table: Seq<u8>,
    set: Seq<u8>,
    addrs: Seq<Seq<u8>>,
    addr_len: nat,
)
    requires
        addr_len == 4 || addr_len == 16,
        forall|k: int| 0 <= k < addrs.len() ==> #[trigger] addrs[k].len() == addr_len,
        setelem_msg_fits(table.len(), set.len(), addrs.len(), addr_len),
    ensures
        setelem_msg(table, set, addrs).len() >= 16,
        header_len_field(setelem_msg(table, set, addrs)) == setelem_msg(table, set, addrs).len(),
        reply_type(setelem_msg(table, set, addrs)) == Some(
            256 * NFNL_SUBSYS_NFTABLES + NFT_MSG_NEWSETELEM as int,
        ),
        asks_ack(setelem_msg(table, set, addrs)),
        message_adds(setelem_msg(table, set, addrs), table, set, addrs, addr_len),
{
    law_batch_messages_frame_themselves(table, set, addrs, addr_len);
    lemma_setelem_msg_header(table, set, addrs);
    lemma_setelem_msg_names(table, set, addrs);
    lemma_setelem_msg_elems(table, set, addrs, addr_len);
    lemma_name_attr(NFTA_SET_ELEM_LIST_TABLE as int, table);
    lemma_name_attr(NFTA_SET_ELEM_LIST_SET as int, set);
}

proof fn lemma_split_prepend(x: Seq<u8>, y: Seq<u8>)
    requires
        x.len() >= 16,
        header_len_field(x) == x.len(),
    ensures
        split_messages(x + y) == seq![x] + split_messages(y),
{
    let b = x + y;
    assert(b[0] == x[0] && b[1] == x[1] && b[2] == x[2] && b[3] == x[3]);
    assert(b.take(x.len() as int) =~= x);
    assert(b.skip(x.len() as int) =~= y);
}

proof fn lemma_batch_marker(ty: int, seq: int)
    requires
        0 <= ty < 256,
    ensures
        ({
            let m = nlmsg(ty, NLM_F_REQUEST as int, seq, nfgenmsg(0, NFNL_SUBSYS_NFTABLES as int));
            &&& m.len() == 20
            &&& header_len_field(m) == 20
            &&& reply_type(m) == Some(ty)
            &&& !asks_ack(m)
        }),
{
    let body = nfgenmsg(0, NFNL_SUBSYS_NFTABLES as int);
    law_message_frames_itself(ty, NLM_F_REQUEST as int, seq, body);
    let m = nlmsg(ty, NLM_F_REQUEST as int, seq, body);
    assert(m[4] == le16(ty)[0]);
    assert(m[5] == le16(ty)[1]);
    assert(m[6] == le16(NLM_F_REQUEST as int)[0]);
}

proof fn lemma_addr_bytes_len<const N: usize>(addrs: Seq<[u8; N]>)
    ensures
        forall|k: int| 0 <= k < addrs.len() ==> #[trigger] addr_bytes(addrs)[k].len() == N,
        addr_bytes(addrs).len() == addrs.len(),
{
    assert forall|k: int| 0 <= k < addrs.len() implies #[trigger] addr_bytes(addrs)[k].len() == N by {
        assert(addr_bytes(addrs)[k] == addrs[k]@);
    }
}

proof fn lemma_split_optional(m: Seq<u8>, has: bool, rest: Seq<u8>)
    requires
        has ==> m.len() >= 16 && header_len_field(m) == m.len(),
    ensures
        split_messages((if has { m } else { Seq::empty() }) + rest) == (if has {
            seq![m]
        } else {
            Seq::empty()
        }) + split_messages(rest),
{
    if has {
        lemma_split_prepend(m, rest);
    } else {
        assert(Seq::<u8>::empty() + rest =~= rest);
        assert(Seq::<Seq<u8>>::empty() + split_messages(rest) =~= split_messages(rest));
    }
}

proof fn lemma_split_batch_parts(
    begin: Seq<u8>,
    m4: Seq<u8>,
    has4: bool,
    m6: Seq<u8>,
    has6: bool,
    end: Seq<u8>,
)
    requires
        begin.len() >= 16 && header_len_field(begin) == begin.len(),
        end.len() >= 16 && header_len_field(end) == end.len(),
        has4 ==> m4.len() >= 16 && header_len_field(m4) == m4.len(),
        has6 ==> m6.len() >= 16 && header_len_field(m6) == m6.len(),
    ensures
        split_messages(begin + (if has4 { m4 } else { Seq::empty() }) + (if has6 {
            m6
        } else {
            Seq::empty()
        }) + end) == seq![begin] + (if has4 { seq![m4] } else { Seq::empty() }) + (if has6 {
            seq![m6]
        } else {
            Seq::empty()
        }) + seq![end],
{
    let p4 = if has4 { m4 } else { Seq::<u8>::empty() };
    let p6 = if has6 { m6 } else { Seq::<u8>::empty() };
    let q4 = if has4 { seq![m4] } else { Seq::<Seq<u8>>::empty() };
    let q6 = if has6 { seq![m6] } else { Seq::<Seq<u8>>::empty() };
    lemma_split_prepend(end, Seq::empty());
    assert(end + Seq::<u8>::empty() =~= end);
    assert(split_messages(Seq::<u8>::empty()) =~= Seq::<Seq<u8>>::empty());
    assert(split_messages(end) =~= seq![end]);
    lemma_split_optional(m6, has6, end);
    lemma_split_optional(m4, has4, p6 + end);
    lemma_split_prepend(begin, p4 + (p6 + end));
    assert(begin + p4 + p6 + end =~= begin + (p4 + (p6 + end)));
    assert(seq![begin] + (q4 + (q6 + seq![end])) =~= seq![begin] + q4 + q6 + seq![end]);
}

/// The messages a request is cut into.
#[verifier::rlimit(40)]
proof fn lemma_batch_split(
    table: Seq<u8>,
    set_v4: Seq<u8>,
    set_v6: Seq<u8>,
    addrs_v4: Seq<[u8; 4]>,
    addrs_v6: Seq<[u8; 16]>,
)
    requires
        batch_fits(table.len(), set_v4.len(), set_v6.len(), addrs_v4.len(), addrs_v6.len()),
    ensures
        split_messages(
            setelem_batch(table, set_v4, set_v6, addr_bytes(addrs_v4), addr_bytes(addrs_v6)),
        ) == seq![batch_begin()] + (if addrs_v4.len() > 0 {
            seq![setelem_msg(table, set_v4, addr_bytes(addrs_v4))]
        } else {
            Seq::empty()
        }) + (if addrs_v6.len() > 0 {
            seq![setelem_msg(table, set_v6, addr_bytes(addrs_v6))]
        } else {
            Seq::empty()
        }) + seq![batch_end()],
        reply_type(batch_begin()) == Some(NFNL_MSG_BATCH_BEGIN as int),
        !asks_ack(batch_begin()),
        reply_type(batch_end()) == Some(NFNL_MSG_BATCH_END as int),
        !asks_ack(batch_end()),
        addrs_v4.len() > 0 ==> message_adds(
            setelem_msg(table, set_v4, addr_bytes(addrs_v4)),
            table,
            set_v4,
            addr_bytes(addrs_v4),
            4,
        ) && reply_type(setelem_msg(table, set_v4, addr_bytes(addrs_v4))) == Some(
            256 * NFNL_SUBSYS_NFTABLES + NFT_MSG_NEWSETELEM as int,
        ) && asks_ack(setelem_msg(table, set_v4, addr_bytes(addrs_v4))),
        addrs_v6.len() > 0 ==> message_adds(
            setelem_msg(table, set_v6, addr_bytes(addrs_v6)),
            table,
            set_v6,
            addr_bytes(addrs_v6),
            16,
        ) && reply_type(setelem_msg(table, set_v6, addr_bytes(addrs_v6))) == Some(
            256 * NFNL_SUBSYS_NFTABLES + NFT_MSG_NEWSETELEM as int,
        ) && asks_ack(setelem_msg(table, set_v6, addr_bytes(addrs_v6))),
{
    let a4 = addr_bytes(addrs_v4);
    let a6 = addr_bytes(addrs_v6);
    lemma_addr_bytes_len(addrs_v4);
    lemma_addr_bytes_len(addrs_v6);
    lemma_batch_marker(NFNL_MSG_BATCH_BEGIN as int, 0);
    lemma_batch_marker(NFNL_MSG_BATCH_END as int, 2);
    let m4 = setelem_msg(table, set_v4, a4);
    let m6 = setelem_msg(table, set_v6, a6);
    if a4.len() > 0 {
        lemma_setelem_msg_layout(table, set_v4, a4, 4);
    }
    if a6.len() > 0 {
        lemma_setelem_msg_layout(table, set_v6, a6, 16);
    }
    lemma_split_batch_parts(batch_begin(), m4, a4.len() > 0, m6, a6.len() > 0, batch_end());
}

/// A request is cut, by the length in each header, into a batch-begin
/// message, one new-set-element message for each non-empty address list (the
/// IPv4 one first), and a batch-end message. The new-set-element messages,
/// and only they, ask for an acknowledgement, so the acknowledgements a
/// request waits for are one per new-set-element message, however many
/// addresses each list holds.
#[verifier::rlimit(40)]
pub proof fn law_batch_message_sequence(
    table: Seq<u8>,
    set_v4: Seq<u8>,
    set_v6: Seq<u8>,
    addrs_v4: Seq<[u8; 4]>,
    addrs_v6: Seq<[u8; 16]>,
)
    requires
        batch_fits(table.len(), set_v4.len(), set_v6.len(), addrs_v4.len(), addrs_v6.len()),
    ensures
        ({
            let ms = split_messages(
                setelem_batch(table, set_v4, set_v6, addr_bytes(addrs_v4), addr_bytes(addrs_v6)),
            );
            let n = 2 + (if addrs_v4.len() > 0 {
                1int
            } else {
                0int
            }) + (if addrs_v6.len() > 0 {
                1int
            } else {
                0int
            });
            &&& ms.len() == n
            &&& reply_type(ms[0]) == Some(NFNL_MSG_BATCH_BEGIN as int)
            &&& !asks_ack(ms[0])
            &&& reply_type(ms[n - 1]) == Some(NFNL_MSG_BATCH_END as int)
            &&& !asks_ack(ms[n - 1])
            &&& forall|i: int|
                0 < i < n - 1 ==> reply_type(#[trigger] ms[i]) == Some(
                    256 * NFNL_SUBSYS_NFTABLES + NFT_MSG_NEWSETELEM as int,
                ) && asks_ack(ms[i])
            &&& acks_for(addrs_v4.len(), addrs_v6.len()) == n - 2
        }),
{
    lemma_batch_split(table, set_v4, set_v6, addrs_v4, addrs_v6);
    lemma_addr_bytes_len(addrs_v4);
    lemma_addr_bytes_len(addrs_v6);
}

/// The new-set-element messages of a request add exactly the given
/// addresses: the IPv4 message names the table and the IPv4 set and lists
/// one element per IPv4 address, keyed by it, in order; the IPv6 message
/// does the same with the IPv6 set and addresses.
#[verifier::rlimit(40)]
pub proof fn law_batch_adds_every_address(
    table: Seq<u8>,
    set_v4: Seq<u8>,
    set_v6: Seq<u8>,
    addrs_v4: Seq<[u8; 4]>,
    addrs_v6: Seq<[u8; 16]>,
)
    requires
        batch_fits(table.len(), set_v4.len(), set_v6.len(), addrs_v4.len(), addrs_v6.len()),
    ensures
        ({
            let ms = split_messages(
                setelem_batch(table, set_v4, set_v6, addr_bytes(addrs_v4), addr_bytes(addrs_v6)),
            );
            &&& addrs_v4.len() > 0 ==> message_adds(ms[1], table, set_v4, addr_bytes(addrs_v4), 4)
            &&& addrs_v6.len() > 0 ==> message_adds(
                ms[ms.len() - 2],
                table,
                set_v6,
                addr_bytes(addrs_v6),
                16,
            )
        }),
{
    lemma_batch_split(table, set_v4, set_v6, addrs_v4, addrs_v6);
}

/// Appends one element keyed by `addr`.
fn put_set_elem<const N: usize>(buf: &mut Vec<u8>, addr: &[u8; N])
    requires
        N == 4 || N == 16,
    ensures
        final(buf)@ == old(buf)@ + set_elem(addr@),
{
    proof {
        lemma_padding_empty(N as nat);
        lemma_padding_empty(N as nat + 4);
        lemma_padding_empty(N as nat + 8);
    }
    put_nested_header(buf, 0, N + 8);
    put_nested_header(buf, NFTA_SET_ELEM_KEY, N + 4);
    put_attr(buf, NFTA_DATA_VALUE, addr.as_slice());
    assert(final(buf)@ =~= old(buf)@ + set_elem(addr@));
}

/// Appends the elements for a list of addresses.
fn put_set_elems<const N: usize>(buf: &mut Vec<u8>, addrs: &[[u8; N]])
    requires
        N == 4 || N == 16,
    ensures
        final(buf)@ == old(buf)@ + set_elems(addr_bytes(addrs@)),
{
    let mut k: usize = 0;
    while k < addrs.len()
        invariant
            N == 4 || N == 16,
            0 <= k <= addrs.len(),
            buf@ == old(buf)@ + set_elems(addr_bytes(addrs@.take(k as int))),
        decreases addrs.len() - k,
    {
        let ghost before = buf@;
        put_set_elem(buf, &addrs[k]);
        k = k + 1;
        proof {
            let done = addr_bytes(addrs@.take(k as int));
            assert(done.drop_last() =~= addr_bytes(addrs@.take(k - 1)));
            assert(done.last() == addrs@[k - 1]@);
            assert(buf@ =~= old(buf)@ + set_elems(done));
        }
    }
    assert(addrs@.take(addrs.len() as int) =~= addrs@);
}

/// The body of the message that adds `addrs` to set `set` of table `table`.
pub open spec fn setelem_body(table: Seq<u8>, set: Seq<u8>, addrs: Seq<Seq<u8>>) -> Seq<u8> {
    nfgenmsg(NFPROTO_INET, 0) + attr(NFTA_SET_ELEM_LIST_TABLE as int, strz(table)) + attr(
        NFTA_SET_ELEM_LIST_SET as int,
        strz(set),
    ) + nested(NFTA_SET_ELEM_LIST_ELEMENTS as int, set_elems(addrs))
}

/// Appends the body of a new-set-element message.
fn put_setelem_body<const N: usize>(
    buf: &mut Vec<u8>,
    table: &[u8],
    set: &[u8],
    addrs: &[[u8; N]],
)
    requires
        N == 4 || N == 16,
        setelem_msg_fits(table.len() as nat, set.len() as nat, addrs.len() as nat, N as nat),
    ensures
        final(buf)@ == old(buf)@ + setelem_body(table@, set@, addr_bytes(addrs@)),
{
    let ghost elems = set_elems(addr_bytes(addrs@));
    proof {
        assert forall|k: int| 0 <= k < addr_bytes(addrs@).len() implies #[trigger] addr_bytes(
            addrs@,
        )[k].len() == N as nat by {
            assert(addr_bytes(addrs@)[k] == addrs@[k]@);
        }
        lemma_set_elems_len(addr_bytes(addrs@), N as nat);
        assert(elems.len() % 4 == 0) by (nonlinear_arith)
            requires
                elems.len() == addrs.len() * (N + 12),
                N == 4 || N == 16,
        ;
        lemma_padding_empty(elems.len());
    }
    let elems_len = addrs.len() * (N + 12);
    put_nfgenmsg(buf, NFPROTO_INET, 0);
    put_attr_strz(buf, NFTA_SET_ELEM_LIST_TABLE, table);
    put_attr_strz(buf, NFTA_SET_ELEM_LIST_SET, set);
    let ghost mid = buf@;
    put_nested_header(buf, NFTA_SET_ELEM_LIST_ELEMENTS, elems_len);
    put_set_elems(buf, addrs);
    assert(buf@ =~= mid + nested(NFTA_SET_ELEM_LIST_ELEMENTS as int, elems));
    assert(final(buf)@ =~= old(buf)@ + setelem_body(table@, set@, addr_bytes(addrs@)));
}

/// Appends the new-set-element message that adds `addrs` to set `set` of
/// table `table`.
fn put_setelem_msg<const N: usize>(buf: &mut Vec<u8>, table: &[u8], set: &[u8], addrs: &[[u8; N]])
    requires
        N == 4 || N == 16,
        setelem_msg_fits(table.len() as nat, set.len() as nat, addrs.len() as nat, N as nat),
    ensures
        final(buf)@ == old(buf)@ + setelem_msg(table@, set@, addr_bytes(addrs@)),
{
    let mut body: Vec<u8> = Vec::new();
    put_setelem_body(&mut body, table, set, addrs);
    proof {
        let elems = set_elems(addr_bytes(addrs@));
        assert forall|k: int| 0 <= k < addr_bytes(addrs@).len() implies #[trigger] addr_bytes(
            addrs@,
        )[k].len() == N as nat by {
            assert(addr_bytes(addrs@)[k] == addrs@[k]@);
        }
        lemma_set_elems_len(addr_bytes(addrs@), N as nat);
        assert(body@.len() <= 4 + 3 * 0x10003);
    }
    let ty = nft_msg_type(NFT_MSG_NEWSETELEM);
    let flags = NLM_F_REQUEST | NLM_F_ACK | NLM_F_CREATE;
    assert(NLM_F_REQUEST | NLM_F_ACK | NLM_F_CREATE == 0x405u16) by (bit_vector);
    put_nlmsghdr(buf, (16 + body.len()) as u32, ty, flags, 1);
    put_bytes(buf, body.as_slice());
    assert(final(buf)@ =~= old(buf)@ + setelem_msg(table@, set@, addr_bytes(addrs@)));
}

/// Appends a batch-begin or batch-end message.
fn put_batch_marker(buf: &mut Vec<u8>, ty: u16, seq: u32)
    ensures
        final(buf)@ == old(buf)@ + nlmsg(
            ty as int,
            NLM_F_REQUEST as int,
            seq as int,
            nfgenmsg(0, NFNL_SUBSYS_NFTABLES as int),
        ),
{
    put_nlmsghdr(buf, 20, ty, NLM_F_REQUEST, seq);
    put_nfgenmsg(buf, af_unspec(), NFNL_SUBSYS_NFTABLES);
    assert(final(buf)@ =~= old(buf)@ + nlmsg(
        ty as int,
        NLM_F_REQUEST as int,
        seq as int,
        nfgenmsg(0, NFNL_SUBSYS_NFTABLES as int),
    ));
}

/// Builds the request that adds `addrs_v4` to set `set_v4` and `addrs_v6` to
/// set `set_v6` of table `table`.
///
/// Fails with `ProtocolError` when a name or an address list is too long for
/// the 16-bit length of its attribute.
pub fn build_setelem_batch(
    table: &str,
    set_v4: &str,
    set_v6: &str,
    addrs_v4: &[[u8; 4]],
    addrs_v6: &[[u8; 16]],
) -> (r: Result<Vec<u8>, NftError>)
    ensures
        match r {
            Ok(msg) => batch_fits(
                table.spec_bytes().len(),
                set_v4.spec_bytes().len(),
                set_v6.spec_bytes().len(),
                addrs_v4@.len(),
                addrs_v6@.len(),
            ) && msg@ == setelem_batch(
                table.spec_bytes(),
                set_v4.spec_bytes(),
                set_v6.spec_bytes(),
                addr_bytes(addrs_v4@),
                addr_bytes(addrs_v6@),
            ),
            Err(e) => !batch_fits(
                table.spec_bytes().len(),
                set_v4.spec_bytes().len(),
                set_v6.spec_bytes().len(),
                addrs_v4@.len(),
                addrs_v6@.len(),
            ) && e == NftError::ProtocolError,
        },
{
    let table_b = table.as_bytes();
    let set_v4_b = set_v4.as_bytes();
    let set_v6_b = set_v6.as_bytes();
    let n4 = addrs_v4.len();
    let n6 = addrs_v6.len();
    let max: usize = 0xffff;
    let fits_v4 = n4 == 0 || (table_b.len() <= max - 5 && set_v4_b.len() <= max - 5 && n4 <= (max
        - 4) / 16);
    let fits_v6 = n6 == 0 || (table_b.len() <= max - 5 && set_v6_b.len() <= max - 5 && n6 <= (max
        - 4) / 28);
    assert(n4 <= (0xffff - 4) / 16 <==> 4 + n4 * 16 <= 0xffff) by (nonlinear_arith);
    assert(n6 <= (0xffff - 4) / 28 <==> 4 + n6 * 28 <= 0xffff) by (nonlinear_arith);
    if !(fits_v4 && fits_v6) {
        return Err(NftError::ProtocolError);
    }
    let mut buf: Vec<u8> = Vec::new();
    put_batch_marker(&mut buf, NFNL_MSG_BATCH_BEGIN, 0);
    if n4 > 0 {
        put_setelem_msg(&mut buf, table_b, set_v4_b, addrs_v4);
    }
    if n6 > 0 {
        put_setelem_msg(&mut buf, table_b, set_v6_b, addrs_v6);
    }
    put_batch_marker(&mut buf, NFNL_MSG_BATCH_END, 2);
    assert(buf@ =~= setelem_batch(
        table.spec_bytes(),
        set_v4.spec_bytes(),
        set_v6.spec_bytes(),
        addr_bytes(addrs_v4@),
        addr_bytes(addrs_v6@),
    ));
    Ok(buf)
}

// ---------------------------------------------------------------------------
// Replies
// ---------------------------------------------------------------------------

/// The number of acknowledgements a request asks for: one for each
/// new-set-element message, so one for each non-empty address list (the batch
/// markers ask for none).
pub open spec fn acks_for(count_v4: nat, count_v6: nat) -> nat {
    (if count_v4 > 0 { 1nat } else { 0nat }) + (if count_v6 > 0 { 1nat } else { 0nat })
}

/// How many acknowledgements the request for these addresses waits for.
pub fn expected_acks(addrs_v4: &[[u8; 4]], addrs_v6: &[[u8; 16]]) -> (acks: usize)
    ensures
        acks == acks_for(addrs_v4@.len(), addrs_v6@.len()),
{
    let mut acks: usize = 0;
    if addrs_v4.len() > 0 {
        acks = acks + 1;
    }
    if addrs_v6.len() > 0 {
        acks = acks + 1;
    }
    acks
}

/// What to do once a reply to the request has come in.
#[derive(Debug)]
pub enum ReplyStep {
    /// Wait for the next reply; this many acknowledgements are still due.
    Continue(usize),
    /// Every message of the request has been acknowledged.
    Done,
    /// The request failed.
    Failed(NftError),
}

/// The error number as a positive value (the kernel sends it negated); the
/// most negative value, which has no positive counterpart, is kept as it is.
pub open spec fn errno_of(code: int) -> int {
    if code == i32::MIN {
        code
    } else {
        -code
    }
}

/// How a reply moves a request that still waits for `pending`
/// acknowledgements:
/// - a reply too short for a header, or an error message too short for its
///   code, is a protocol error;
/// - the end of a multipart reply closes the request, whatever is still due;
/// - an error message with a non-zero code fails the request (a missing table
///   or set separately);
/// - an acknowledgement (error message with code zero) settles one message:
///   the request is done when it was the last one due;
/// - anything else is waited past.
pub open spec fn reply_step(reply: Seq<u8>, pending: nat) -> ReplyStep {
    if reply.len() < NLMSG_HDR_SIZE {
        ReplyStep::Failed(NftError::ProtocolError)
    } else if reply_type(reply) == Some(NLMSG_ERROR as int) {
        match reply_error(reply) {
            None => ReplyStep::Failed(NftError::ProtocolError),
            Some(code) => if code != 0 {
                if errno_of(code) == 2 {
                    ReplyStep::Failed(NftError::SetNotFound)
                } else {
                    ReplyStep::Failed(NftError::NetlinkError(errno_of(code) as i32))
                }
            } else if pending <= 1 {
                ReplyStep::Done
            } else {
                ReplyStep::Continue((pending - 1) as usize)
            },
        }
    } else if reply_type(reply) == Some(NLMSG_DONE as int) {
        ReplyStep::Done
    } else {
        ReplyStep::Continue(pending as usize)
    }
}

/// Decides what a reply of the kernel means for a request that still waits
/// for `pending` acknowledgements.
pub fn handle_reply(reply: &[u8], pending: usize) -> (step: ReplyStep)
    ensures
        step == reply_step(reply@, pending as nat),
{
    if reply.len() < NLMSG_HDR_SIZE {
        return ReplyStep::Failed(NftError::ProtocolError);
    }
    if is_nlmsg_done(reply) {
        return ReplyStep::Done;
    }
    match get_nlmsg_type(reply) {
        Some(t) => {
            if t != NLMSG_ERROR {
                return ReplyStep::Continue(pending);
            }
        },
        None => {
            return ReplyStep::Continue(pending);
        },
    }
    match parse_nlmsg_error(reply) {
        None => ReplyStep::Failed(NftError::ProtocolError),
        Some(code) => {
            if code != 0 {
                let errno = if code == i32::MIN {
                    code
                } else {
                    -code
                };
                if errno == enoent() {
                    ReplyStep::Failed(NftError::SetNotFound)
                } else {
                    ReplyStep::Failed(NftError::NetlinkError(errno))
                }
            } else if pending <= 1 {
                ReplyStep::Done
            } else {
                ReplyStep::Continue(pending - 1)
            }
        },
    }
}

/// Where a sequence of replies leaves a request that waits for `pending`
/// acknowledgements: `None` while it still waits after all of them, otherwise
/// the step that ended it.
pub open spec fn run_replies(replies: Seq<Seq<u8>>, pending: nat) -> Option<ReplyStep>
    decreases replies.len(),
{
    if replies.len() == 0 {
        None
    } else {
        match reply_step(replies[0], pending) {
            ReplyStep::Continue(left) => run_replies(replies.drop_first(), left as nat),
            other => Some(other),
        }
    }
}

/// The reply is an error message (an acknowledgement when its code is zero).
pub open spec fn is_error_reply(reply: Seq<u8>) -> bool {
    reply.len() >= NLMSG_HDR_SIZE && reply_type(reply) == Some(NLMSG_ERROR as int) && reply_error(
        reply,
    ) is Some
}

/// The code of a reply that is an error message.
pub open spec fn code_of(reply: Seq<u8>) -> int {
    reply_error(reply)->0
}

/// When the kernel answers a request with one error message per
/// new-set-element message, the request is done exactly when every one of
/// them is an acknowledgement (code zero); when the first non-zero code is
/// `-ENOENT`, it fails with `SetNotFound`.
pub proof fn law_done_only_when_every_message_acknowledged(replies: Seq<Seq<u8>>)
    requires
        1 <= replies.len() <= usize::MAX,
        forall|i: int| 0 <= i < replies.len() ==> #[trigger] is_error_reply(replies[i]),
    ensures
        run_replies(replies, replies.len()) == Some(ReplyStep::Done) <==> forall|i: int|
            0 <= i < replies.len() ==> #[trigger] code_of(replies[i]) == 0,
        forall|i: int|
            0 <= i < replies.len() && #[trigger] code_of(replies[i]) == -2 && (forall|j: int|
                0 <= j < i ==> code_of(replies[j]) == 0) ==> run_replies(replies, replies.len())
                == Some(ReplyStep::Failed(NftError::SetNotFound)),
    decreases replies.len(),
{
    let first = replies[0];
    assert(is_error_reply(first));
    let rest = replies.drop_first();
    if replies.len() > 1 {
        assert forall|i: int| 0 <= i < rest.len() implies #[trigger] is_error_reply(rest[i]) by {
            assert(rest[i] == replies[i + 1]);
            assert(is_error_reply(replies[i + 1]));
        }
        law_done_only_when_every_message_acknowledged(rest);
        if code_of(first) == 0 {
            assert(reply_step(first, replies.len()) == ReplyStep::Continue((replies.len() - 1) as usize));
            assert(((replies.len() - 1) as usize) as nat == rest.len());
            assert(run_replies(replies, replies.len()) == run_replies(rest, rest.len()));
            if forall|i: int| 0 <= i < rest.len() ==> #[trigger] code_of(rest[i]) == 0 {
                assert forall|i: int| 0 <= i < replies.len() implies #[trigger] code_of(replies[i]) == 0 by {
                    if i > 0 {
                        assert(rest[i - 1] == replies[i]);
                    }
                }
            }
            if forall|i: int| 0 <= i < replies.len() ==> #[trigger] code_of(replies[i]) == 0 {
                assert forall|i: int| 0 <= i < rest.len() implies #[trigger] code_of(rest[i]) == 0 by {
                    assert(rest[i] == replies[i + 1]);
                    assert(code_of(replies[i + 1]) == 0);
                }
            }
            assert forall|i: int|
                0 <= i < replies.len() && #[trigger] code_of(replies[i]) == -2 && (forall|j: int|
                    0 <= j < i ==> code_of(replies[j]) == 0) implies run_replies(replies, replies.len())
                    == Some(ReplyStep::Failed(NftError::SetNotFound)) by {
                assert(i > 0);
                assert(rest[i - 1] == replies[i]);
                assert forall|j: int| 0 <= j < i - 1 implies code_of(rest[j]) == 0 by {
                    assert(rest[j] == replies[j + 1]);
                    assert(code_of(replies[j + 1]) == 0);
                }
                assert(code_of(rest[i - 1]) == -2);
            }
        } else {
            assert(code_of(replies[0]) != 0);
        }
    } else {
        if code_of(first) != 0 {
            assert(code_of(replies[0]) != 0);
        }
    }
}

} // verus!
