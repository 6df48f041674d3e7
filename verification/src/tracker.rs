//! Tracker-side byte formats: the info-hash cut out of the metainfo file,
//! and the UDP announce protocol's fixed-layout packets, all big-endian on
//! the wire.

use vstd::prelude::*;

use crate::msg::{copy_range, u32_be_bytes, u32_of_be, u32_to_be, parse_u32};
use crate::hash::{sha1_of, sha1_digest};

verus! {

/// The magic protocol identifier of a UDP tracker connect packet.
pub const MAGIC: u64 = 0x417_2710_1980;

/// The big-endian value of the first two bytes of `s`.
pub open spec fn u16_of_be(s: Seq<u8>) -> u16 {
    ((s[0] as u16) << 8) | (s[1] as u16)
}

/// The two big-endian bytes of `x`.
pub open spec fn u16_be_bytes(x: u16) -> Seq<u8> {
    seq![(((x >> 8) & 0xff) as u8), ((x & 0xff) as u8)]
}

/// The eight big-endian bytes of `x`.
pub open spec fn u64_be_bytes(x: u64) -> Seq<u8> {
    seq![
        (((x >> 56) & 0xff) as u8),
        (((x >> 48) & 0xff) as u8),
        (((x >> 40) & 0xff) as u8),
        (((x >> 32) & 0xff) as u8),
        (((x >> 24) & 0xff) as u8),
        (((x >> 16) & 0xff) as u8),
        (((x >> 8) & 0xff) as u8),
        ((x & 0xff) as u8),
    ]
}

/// The big-endian value of the first eight bytes of `s`.
pub open spec fn u64_of_be(s: Seq<u8>) -> u64 {
    ((s[0] as u64) << 56) | ((s[1] as u64) << 48) | ((s[2] as u64) << 40)
        | ((s[3] as u64) << 32) | ((s[4] as u64) << 24) | ((s[5] as u64) << 16)
        | ((s[6] as u64) << 8) | (s[7] as u64)
}

/// Big-endian write of a 16-bit value.
pub fn u16_to_be(x: u16) -> (r: Vec<u8>)
    ensures
        r@ == u16_be_bytes(x),
{
    proof {
        assert((x >> 8) & 0xff < 256 && x & 0xff < 256) by (bit_vector);
    }
    let mut r: Vec<u8> = Vec::new();
    r.push(((x >> 8) & 0xff) as u8);
    r.push((x & 0xff) as u8);
    proof {
        assert(r@ =~= u16_be_bytes(x));
    }
    r
}

/// Big-endian write of a 64-bit value.
pub fn u64_to_be(x: u64) -> (r: Vec<u8>)
    ensures
        r@ == u64_be_bytes(x),
{
    proof {
        assert((x >> 56) & 0xff < 256 && (x >> 48) & 0xff < 256 && (x >> 40) & 0xff < 256
            && (x >> 32) & 0xff < 256 && (x >> 24) & 0xff < 256 && (x >> 16) & 0xff < 256
            && (x >> 8) & 0xff < 256 && x & 0xff < 256) by (bit_vector);
    }
    let mut r: Vec<u8> = Vec::new();
    r.push(((x >> 56) & 0xff) as u8);
    r.push(((x >> 48) & 0xff) as u8);
    r.push(((x >> 40) & 0xff) as u8);
    r.push(((x >> 32) & 0xff) as u8);
    r.push(((x >> 24) & 0xff) as u8);
    r.push(((x >> 16) & 0xff) as u8);
    r.push(((x >> 8) & 0xff) as u8);
    r.push((x & 0xff) as u8);
    proof {
        assert(r@ =~= u64_be_bytes(x));
    }
    r
}

/// Big-endian read of the first eight bytes.
pub fn u64_from_be(bytes: &[u8]) -> (r: u64)
    requires
        bytes@.len() >= 8,
    ensures
        r == u64_of_be(bytes@),
{
    let b0 = bytes[0];
    let b1 = bytes[1];
    let b2 = bytes[2];
    let b3 = bytes[3];
    let b4 = bytes[4];
    let b5 = bytes[5];
    let b6 = bytes[6];
    let b7 = bytes[7];
    ((b0 as u64) << 56) | ((b1 as u64) << 48) | ((b2 as u64) << 40) | ((b3 as u64) << 32)
        | ((b4 as u64) << 24) | ((b5 as u64) << 16) | ((b6 as u64) << 8) | (b7 as u64)
}

/// The marker that opens the metainfo's `info` entry: the bytes `4:infod`.
pub open spec fn info_marker() -> Seq<u8> {
    seq![52u8, 58u8, 105u8, 110u8, 102u8, 111u8, 100u8]
}

/// The first position where the `info` entry's marker stands.
pub open spec fn find_info(s: Seq<u8>, from: int) -> Option<int>
    decreases s.len() - from,
{
    if from < 0 || from + 7 > s.len() {
        None
    } else if s.subrange(from, from + 7) == info_marker() {
        Some(from)
    } else {
        find_info(s, from + 1)
    }
}

/// The byte span of the `info` dictionary inside a metainfo document:
/// key start, value start and value end. Defined when the document opens
/// as a dictionary with an `info` entry whose value is itself a
/// dictionary.
pub open spec fn info_value_span(s: Seq<u8>) -> Option<(int, int, int)> {
    if s.len() >= 1 && s[0] == 100 {
        match crate::bencode::dict_value_span(s.skip(1), crate::torrent::key_info()) {
            Some(t) => Some((1 + t.0, 1 + t.1, 1 + t.2)),
            None => None,
        }
    } else {
        None
    }
}

proof fn lemma_marker_at_key_rec(p: Seq<u8>, t: (int, int, int))
    requires
        crate::bencode::dict_value_span(p, crate::torrent::key_info()) == Some(t),
        t.1 == t.0 + 6,
    ensures
        0 <= t.0,
        t.0 + 7 <= p.len(),
        p.subrange(t.0, t.0 + 7) == info_marker(),
    decreases p.len(),
{
    let key = crate::torrent::key_info();
    let sp = crate::bencode::spec_parse_str(p);
    let k = sp->Some_0.0;
    let n1 = sp->Some_0.1;
    let vp = crate::bencode::spec_parse_item(p.skip(n1));
    let n2 = vp->Some_0.1;
    if k == key {
        // the entry at the front is the `info` entry itself
        let krun = crate::bencode::digit_run_len(p, 0);
        let l = crate::bencode::digits_val(p.subrange(0, krun));
        crate::bencode::lemma_digit_run(p, 0);
        assert forall|j: int| 0 <= j < p.subrange(0, krun).len() implies crate::bencode::is_digit(
            #[trigger] p.subrange(0, krun)[j],
        ) by {
            assert(p.subrange(0, krun)[j] == p[j]);
        }
        crate::bencode::lemma_digits_val_nonneg(p.subrange(0, krun));
        assert(k.len() == l);
        assert(n1 == krun + 1 + l);
        assert(krun == 1 && l == 4);
        // a single digit denoting four: the byte `4`
        let d = p.subrange(0, 1);
        assert(crate::bencode::digits_val(d.take(0)) == 0);
        assert(crate::bencode::digits_val(d) == d.last() - 48);
        assert(p[0] == 52);
        assert(p[1] == 58);
        // the key's four bytes read `info`
        assert(p.subrange(2, 6) == k);
        // the value is a dictionary, so it opens with `d`
        assert(vp->Some_0.0 is Dict);
        assert(p.skip(6)[0] == 100);
        assert(p.subrange(t.0, t.0 + 7) =~= info_marker());
    } else {
        let rest = p.skip(n1 + n2);
        let t2 = crate::bencode::dict_value_span(rest, key)->Some_0;
        lemma_marker_at_key_rec(rest, t2);
        assert(p.subrange(t.0, t.0 + 7) =~= rest.subrange(t2.0, t2.0 + 7));
    }
}

/// The `info` key always sits behind the marker bytes `4:infod` when its
/// length is written with one digit, the canonical form: the key's
/// encoding is `4:info` and its dictionary value opens with `d`.
pub proof fn lemma_marker_at_info_key(s: Seq<u8>)
    requires
        info_value_span(s) matches Some(t),
        info_value_span(s)->Some_0.1 == info_value_span(s)->Some_0.0 + 6,
    ensures
        (info_value_span(s) matches Some(t) ==> 1 <= t.0 && t.0 + 7 <= s.len()
            && s.subrange(t.0, t.0 + 7) == info_marker()),
{
    let t = info_value_span(s)->Some_0;
    let t2 = crate::bencode::dict_value_span(s.skip(1), crate::torrent::key_info())->Some_0;
    lemma_marker_at_key_rec(s.skip(1), t2);
    assert(s.subrange(t.0, t.0 + 7) =~= s.skip(1).subrange(t2.0, t2.0 + 7));
}

/// The info-hash: the SHA-1 digest of the `info` dictionary's bytes, from
/// its opening `d` through the last byte before the document's final one.
/// When the first occurrence of the marker is the `info` key itself (see
/// `lemma_marker_at_info_key`) and the `info` entry runs to the document's
/// closing byte, the digested range is exactly the `info` dictionary, as
/// the last ensures clause states.
pub fn get_info_hash(bytes: &Vec<u8>) -> (r: Option<Vec<u8>>)
    ensures
        match r {
            Some(h) => find_info(bytes@, 0) matches Some(i) && bytes@.len() >= i + 8
                && h@.len() == 20
                && h@ == sha1_of(bytes@.subrange(i + 6, bytes@.len() - 1))
                && (info_value_span(bytes@) matches Some(t) ==> (t.1 == t.0 + 6
                    && find_info(bytes@, 0) == Some(t.0) && t.2 == bytes@.len() - 1
                        ==> h@ == sha1_of(bytes@.subrange(t.1, t.2)))),
            None => find_info(bytes@, 0) is None || bytes@.len() < find_info(
                bytes@,
                0,
            )->Some_0 + 8,
        },
{
    let n = bytes.len();
    if n < 7 {
        proof {
            assert(find_info(bytes@, 0) is None);
        }
        return None;
    }
    let marker = info_marker_vec();
    let mut i: usize = 0;
    while i <= n - 7
        invariant
            7 <= n,
            i <= n - 6,
            n == bytes@.len(),
            marker@ == info_marker(),
            forall|i2: int| 0 <= i2 < i ==> find_info(bytes@, i2) == find_info(bytes@, i as int),
        decreases n - i,
    {
        let window = copy_range(bytes, i, i + 7);
        if crate::msg::bytes_eq(window.as_slice(), marker.as_slice()) {
            proof {
                assert(find_info(bytes@, i as int) == Some(i as int));
            }
            if n - i < 8 {
                return None;
            }
            let body = copy_range(bytes, i + 6, n - 1);
            let digest = sha1_digest(&body);
            return Some(digest);
        }
        proof {
            assert(find_info(bytes@, i as int) == find_info(bytes@, i + 1));
            assert forall|i2: int| 0 <= i2 < i + 1 implies (#[trigger] find_info(
                bytes@,
                i2,
            )) == find_info(bytes@, i + 1) by {
                assert(find_info(bytes@, i2) == find_info(bytes@, i as int));
            }
        }
        i = i + 1;
    }
    proof {
        assert(find_info(bytes@, i as int) is None);
        assert(find_info(bytes@, 0) == find_info(bytes@, i as int));
    }
    None
}

/// The protocol-name marker as a vector.
pub fn info_marker_vec() -> (r: Vec<u8>)
    ensures
        r@ == info_marker(),
{
    let mut r: Vec<u8> = Vec::new();
    r.push(52);
    r.push(58);
    r.push(105);
    r.push(110);
    r.push(102);
    r.push(111);
    r.push(100);
    proof {
        assert(r@ =~= info_marker());
    }
    r
}

/// The transport a tracker address names.
#[derive(Clone, Copy, Debug, PartialEq, Eq, Structural)]
pub enum Scheme {
    Udp,
    Http,
}

/// The bytes `udp://`.
pub open spec fn udp_prefix() -> Seq<u8> {
    seq![117u8, 100u8, 112u8, 58u8, 47u8, 47u8]
}

/// The bytes `http://`.
pub open spec fn http_prefix() -> Seq<u8> {
    seq![104u8, 116u8, 116u8, 112u8, 58u8, 47u8, 47u8]
}

/// How many bytes of host name stand at `from`: everything up to the first
/// `:` or `/`.
pub open spec fn host_run_len(s: Seq<u8>, from: int) -> int
    decreases s.len() - from,
{
    if from < 0 || from >= s.len() || s[from] == 58 || s[from] == 47 {
        0
    } else {
        1 + host_run_len(s, from + 1)
    }
}

pub proof fn lemma_host_run_of_scan(s: Seq<u8>, from: int, end: int)
    requires
        0 <= from <= end <= s.len(),
        forall|j: int| from <= j < end ==> (#[trigger] s[j]) != 58 && s[j] != 47,
        end == s.len() || s[end] == 58 || s[end] == 47,
    ensures
        host_run_len(s, from) == end - from,
    decreases end - from,
{
    if from < end {
        lemma_host_run_of_scan(s, from + 1, end);
    }
}

pub proof fn lemma_host_run_shift(s: Seq<u8>, p: int, q: int)
    requires
        0 <= p,
        0 <= q,
        p + q <= s.len(),
    ensures
        host_run_len(s.skip(p), q) == host_run_len(s, p + q),
    decreases s.len() - p - q,
{
    if p + q < s.len() && s[p + q] != 58 && s[p + q] != 47 {
        lemma_host_run_shift(s, p, q + 1);
    }
}

/// A host and port after the scheme: the host runs to the first `:` or `/`
/// and must not be empty; a `:` introduces a decimal port of at most
/// 65535; a missing port defaults to 80; a path after the authority is
/// ignored.
pub open spec fn spec_hostport(r: Seq<u8>) -> Option<(Seq<u8>, u16)> {
    let he = host_run_len(r, 0);
    if he == 0 {
        None
    } else {
        let host = r.subrange(0, he);
        if he == r.len() || r[he] == 47 {
            Some((host, 80))
        } else {
            let k = crate::bencode::digit_run_len(r, he + 1);
            if k == 0 {
                None
            } else {
                let pe = he + 1 + k;
                if pe < r.len() && r[pe] != 47 {
                    None
                } else {
                    let v = crate::bencode::digits_val(r.subrange(he + 1, pe));
                    if v <= 65535 {
                        Some((host, v as u16))
                    } else {
                        None
                    }
                }
            }
        }
    }
}

/// What an announce entry denotes: only `udp://` and `http://` addresses
/// are honored; anything else — `https://` among them — is rejected.
pub open spec fn spec_announce_url(s: Seq<u8>) -> Option<(Scheme, Seq<u8>, u16)> {
    if s.len() >= 6 && s.subrange(0, 6) == udp_prefix() {
        match spec_hostport(s.skip(6)) {
            Some(hp) => Some((Scheme::Udp, hp.0, hp.1)),
            None => None,
        }
    } else if s.len() >= 7 && s.subrange(0, 7) == http_prefix() {
        match spec_hostport(s.skip(7)) {
            Some(hp) => Some((Scheme::Http, hp.0, hp.1)),
            None => None,
        }
    } else {
        None
    }
}

/// The bytes `udp://`.
pub fn udp_prefix_vec() -> (r: Vec<u8>)
    ensures
        r@ == udp_prefix(),
{
    let mut r: Vec<u8> = Vec::new();
    r.push(117);
    r.push(100);
    r.push(112);
    r.push(58);
    r.push(47);
    r.push(47);
    proof {
        assert(r@ =~= udp_prefix());
    }
    r
}

/// The bytes `http://`.
pub fn http_prefix_vec() -> (r: Vec<u8>)
    ensures
        r@ == http_prefix(),
{
    let mut r: Vec<u8> = Vec::new();
    r.push(104);
    r.push(116);
    r.push(116);
    r.push(112);
    r.push(58);
    r.push(47);
    r.push(47);
    proof {
        assert(r@ =~= http_prefix());
    }
    r
}

/// Split an announce address into scheme, host and port.
pub fn parse_announce_url(url: &Vec<u8>) -> (r: Option<(Scheme, Vec<u8>, u16)>)
    ensures
        match r {
            Some(t) => spec_announce_url(url@) == Some((t.0, t.1@, t.2)),
            None => spec_announce_url(url@) is None,
        },
{
    let n = url.len();
    let udp = udp_prefix_vec();
    let http = http_prefix_vec();
    let (scheme, off): (Scheme, usize) = if n >= 6 && crate::msg::bytes_eq(
        crate::msg::copy_range(url, 0, 6).as_slice(),
        udp.as_slice(),
    ) {
        (Scheme::Udp, 6)
    } else if n >= 7 && crate::msg::bytes_eq(
        crate::msg::copy_range(url, 0, 7).as_slice(),
        http.as_slice(),
    ) {
        (Scheme::Http, 7)
    } else {
        return None;
    };
    let ghost rest = url@.skip(off as int);
    // the host runs to the first `:` or `/`
    let mut i: usize = off;
    while i < n && url[i] != 58 && url[i] != 47
        invariant
            off <= i <= n,
            n == url@.len(),
            forall|j: int| off <= j < i ==> (#[trigger] url@[j]) != 58 && url@[j] != 47,
        decreases n - i,
    {
        i = i + 1;
    }
    proof {
        lemma_host_run_of_scan(url@, off as int, i as int);
        lemma_host_run_shift(url@, off as int, 0);
        assert(host_run_len(rest, 0) == i - off);
    }
    if i == off {
        return None;
    }
    let host = crate::msg::copy_range(url, off, i);
    proof {
        assert(host@ =~= rest.subrange(0, i - off));
    }
    if i == n || url[i] == 47 {
        return Some((scheme, host, 80));
    }
    // a `:` introduces the port digits
    let end = crate::bencode::scan_digits(url, i + 1);
    proof {
        crate::bencode::lemma_digit_run_shift(url@, off as int, i + 1 - off);
        assert(crate::bencode::digit_run_len(rest, i - off + 1) == end - (i + 1));
    }
    if end == i + 1 {
        return None;
    }
    if end < n && url[end] != 47 {
        return None;
    }
    proof {
        assert(rest.subrange(i - off + 1, end - off) =~= url@.subrange(i + 1, end as int));
    }
    match crate::bencode::digits_value(url, i + 1, end) {
        Some(v) => {
            if v > 65535 {
                None
            } else {
                Some((scheme, host, v as u16))
            }
        }
        None => None,
    }
}

/// One peer returned by a tracker.
#[derive(Clone, Copy, Debug, PartialEq, Eq, Structural)]
pub struct IpPort {
    pub ip: u32,
    pub port: u16,
}

impl IpPort {
    /// Decode the 6-byte address records at the tail of an announce
    /// response.
    pub fn from_bytes(buf: &[u8]) -> (r: Vec<IpPort>)
        ensures
            r@.len() == buf@.len() / 6,
            forall|k: int| 0 <= k < r@.len() ==> (#[trigger] r@[k]).ip == u32_of_be(
                buf@.subrange(k * 6, k * 6 + 4),
            ) && r@[k].port == u16_of_be(buf@.subrange(k * 6 + 4, k * 6 + 6)),
    {
        let bn = buf.len();
        let count = bn / 6;
        let mut r: Vec<IpPort> = Vec::new();
        let mut k: usize = 0;
        while k < count
            invariant
                k <= count,
                bn == buf@.len(),
                count == buf@.len() / 6,
                r@.len() == k,
                forall|k2: int| 0 <= k2 < k ==> (#[trigger] r@[k2]).ip == u32_of_be(
                    buf@.subrange(k2 * 6, k2 * 6 + 4),
                ) && r@[k2].port == u16_of_be(buf@.subrange(k2 * 6 + 4, k2 * 6 + 6)),
            decreases count - k,
        {
            proof {
                assert(k * 6 + 6 <= buf@.len()) by (nonlinear_arith)
                    requires k < buf@.len() / 6;
            }
            let ip = parse_u32(&buf[k * 6..k * 6 + 4]);
            let hi = buf[k * 6 + 4];
            let lo = buf[k * 6 + 5];
            let port = ((hi as u16) << 8) | (lo as u16);
            proof {
                let rec4 = buf@.subrange(k * 6, k * 6 + 4);
                let rec2 = buf@.subrange(k * 6 + 4, k * 6 + 6);
                assert(rec2[0] == buf@[k * 6 + 4] && rec2[1] == buf@[k * 6 + 5]);
            }
            r.push(IpPort { ip, port });
            k = k + 1;
        }
        r
    }
}

/// The 16-byte connect request of the UDP tracker protocol: the magic
/// protocol id, action zero, and the caller's transaction id.
pub fn encode_connect_req(transaction_id: u32) -> (r: Vec<u8>)
    ensures
        r@ == u64_be_bytes(MAGIC) + u32_be_bytes(0) + u32_be_bytes(transaction_id),
        r@.len() == 16,
{
    let mut r = u64_to_be(MAGIC);
    let mut action = u32_to_be(0);
    r.append(&mut action);
    let mut tid = u32_to_be(transaction_id);
    r.append(&mut tid);
    proof {
        assert(r@ =~= u64_be_bytes(MAGIC) + u32_be_bytes(0) + u32_be_bytes(transaction_id));
    }
    r
}

/// Read a connect response: action, transaction id, connection id.
pub fn parse_connect_resp(buf: &[u8]) -> (r: Option<(u32, u32, u64)>)
    ensures
        match r {
            Some(v) => buf@.len() >= 16 && v.0 == u32_of_be(buf@.subrange(0, 4))
                && v.1 == u32_of_be(buf@.subrange(4, 8))
                && v.2 == u64_of_be(buf@.subrange(8, 16)),
            None => buf@.len() < 16,
        },
{
    if buf.len() < 16 {
        return None;
    }
    let action = parse_u32(&buf[0..4]);
    let tid = parse_u32(&buf[4..8]);
    let cid = u64_from_be(&buf[8..16]);
    Some((action, tid, cid))
}

/// Twenty bytes of ones: the peer id this client advertises to a tracker.
pub open spec fn ones_peer_id() -> Seq<u8> {
    Seq::new(20, |i: int| 1u8)
}

/// The 98-byte announce request of the UDP tracker protocol, with zeroed
/// statistics and a request for up to 200 peers.
pub fn encode_announce_req(
    connection_id: u64,
    transaction_id: u32,
    info_hash: &Vec<u8>,
    port: u16,
) -> (r: Vec<u8>)
    requires
        info_hash@.len() == 20,
    ensures
        r@ == u64_be_bytes(connection_id) + u32_be_bytes(1) + u32_be_bytes(transaction_id)
            + info_hash@ + ones_peer_id() + u64_be_bytes(0) + u64_be_bytes(0)
            + u64_be_bytes(0) + u32_be_bytes(0) + u32_be_bytes(0) + u32_be_bytes(0)
            + u32_be_bytes(200) + u16_be_bytes(port),
        r@.len() == 98,
{
    let mut r = u64_to_be(connection_id);
    let mut action = u32_to_be(1);
    r.append(&mut action);
    let mut tid = u32_to_be(transaction_id);
    r.append(&mut tid);
    let mut ih = copy_range(info_hash, 0, 20);
    r.append(&mut ih);
    let mut peer_id: Vec<u8> = Vec::new();
    let mut k: usize = 0;
    while k < 20
        invariant
            k <= 20,
            peer_id@ =~= Seq::new(k as nat, |i: int| 1u8),
        decreases 20 - k,
    {
        peer_id.push(1);
        k = k + 1;
    }
    r.append(&mut peer_id);
    let mut downloaded = u64_to_be(0);
    r.append(&mut downloaded);
    let mut left = u64_to_be(0);
    r.append(&mut left);
    let mut uploaded = u64_to_be(0);
    r.append(&mut uploaded);
    let mut event = u32_to_be(0);
    r.append(&mut event);
    let mut ip_address = u32_to_be(0);
    r.append(&mut ip_address);
    let mut key = u32_to_be(0);
    r.append(&mut key);
    let mut num_want = u32_to_be(200);
    r.append(&mut num_want);
    let mut p = u16_to_be(port);
    r.append(&mut p);
    proof {
        assert(info_hash@.subrange(0, 20) =~= info_hash@);
        assert(r@ =~= u64_be_bytes(connection_id) + u32_be_bytes(1) + u32_be_bytes(
            transaction_id,
        ) + info_hash@ + ones_peer_id() + u64_be_bytes(0) + u64_be_bytes(0) + u64_be_bytes(
            0,
        ) + u32_be_bytes(0) + u32_be_bytes(0) + u32_be_bytes(0) + u32_be_bytes(200)
            + u16_be_bytes(port));
    }
    r
}

/// Read an announce response's tail: the 20-byte head is dropped, the rest
/// decodes as 6-byte address records.
pub fn parse_announce_resp(buf: &[u8]) -> (r: Option<Vec<IpPort>>)
    ensures
        match r {
            Some(peers) => buf@.len() >= 20 && ({
                let tail = buf@.skip(20);
                peers@.len() == tail.len() / 6 && forall|k: int|
                    0 <= k < peers@.len() ==> (#[trigger] peers@[k]).ip == u32_of_be(
                        tail.subrange(k * 6, k * 6 + 4),
                    ) && peers@[k].port == u16_of_be(tail.subrange(k * 6 + 4, k * 6 + 6))
            }),
            None => buf@.len() < 20,
        },
{
    if buf.len() < 20 {
        return None;
    }
    let tail = &buf[20..buf.len()];
    proof {
        assert(tail@ =~= buf@.skip(20));
    }
    Some(IpPort::from_bytes(tail))
}

} // verus!
