//! Peer-wire message codec: the nine framed message types of the swarm
//! protocol, the 68-byte handshake, and a streaming `partial_parse` that
//! consumes whole frames from a growing buffer and leaves the remainder for
//! the next feed. Every multi-byte integer on the wire is big-endian.

use vstd::prelude::*;

verus! {

pub const CHOKE: u8 = 0;
pub const UNCHOKE: u8 = 1;
pub const INTERESTED: u8 = 2;
pub const NOT_INTERESTED: u8 = 3;
pub const HAVE: u8 = 4;
pub const BITFIELD: u8 = 5;
pub const REQUEST: u8 = 6;
pub const PIECE: u8 = 7;
pub const CANCEL: u8 = 8;
pub const HANDSHAKE: u8 = 0x54;

/// Network request unit: 2^14 bytes.
pub const SUBPIECE_LEN: u32 = 0x4000;

/// The big-endian value of the first four bytes of `s`.
pub open spec fn u32_of_be(s: Seq<u8>) -> u32 {
    ((s[0] as u32) << 24) | ((s[1] as u32) << 16) | ((s[2] as u32) << 8) | (s[3] as u32)
}

/// The four big-endian bytes of `x`.
pub open spec fn u32_be_bytes(x: u32) -> Seq<u8> {
    seq![
        (((x >> 24) & 0xff) as u8),
        (((x >> 16) & 0xff) as u8),
        (((x >> 8) & 0xff) as u8),
        ((x & 0xff) as u8),
    ]
}

pub proof fn lemma_u32_be_round_trip(x: u32)
    ensures
        u32_be_bytes(x).len() == 4,
        u32_of_be(u32_be_bytes(x)) == x,
{
    assert(((((x >> 24) & 0xff) as u8 as u32) << 24
        | (((x >> 16) & 0xff) as u8 as u32) << 16
        | (((x >> 8) & 0xff) as u8 as u32) << 8
        | ((x & 0xff) as u8 as u32)) == x) by (bit_vector);
}

/// Big-endian read of the first four bytes, as on the wire.
pub fn parse_u32(bytes: &[u8]) -> (r: u32)
    requires
        bytes@.len() >= 4,
    ensures
        r == u32_of_be(bytes@),
{
    let b0 = bytes[0];
    let b1 = bytes[1];
    let b2 = bytes[2];
    let b3 = bytes[3];
    ((b0 as u32) << 24) | ((b1 as u32) << 16) | ((b2 as u32) << 8) | (b3 as u32)
}

/// Big-endian write of `x`, as on the wire.
pub fn u32_to_be(x: u32) -> (r: Vec<u8>)
    ensures
        r@ == u32_be_bytes(x),
{
    proof {
        assert((x >> 24) & 0xff < 256 && (x >> 16) & 0xff < 256 && (x >> 8) & 0xff < 256
            && x & 0xff < 256) by (bit_vector);
    }
    let mut r: Vec<u8> = Vec::new();
    r.push(((x >> 24) & 0xff) as u8);
    r.push(((x >> 16) & 0xff) as u8);
    r.push(((x >> 8) & 0xff) as u8);
    r.push((x & 0xff) as u8);
    proof {
        assert(r@ =~= u32_be_bytes(x));
    }
    r
}

/// Remove the first `n` bytes of `v`, keeping the rest in order.
pub fn drop_front(v: &mut Vec<u8>, n: usize)
    requires
        n <= old(v)@.len(),
    ensures
        final(v)@ == old(v)@.skip(n as int),
{
    let len = v.len();
    let mut out: Vec<u8> = Vec::new();
    let mut i: usize = n;
    while i < len
        invariant
            n <= i <= len,
            len == v@.len(),
            v@ == old(v)@,
            out@ =~= old(v)@.subrange(n as int, i as int),
        decreases len - i,
    {
        let b = v[i];
        out.push(b);
        i = i + 1;
    }
    proof {
        assert(out@ =~= old(v)@.skip(n as int));
    }
    *v = out;
}

/// The 4-byte length prefix and 1-byte id that open every framed message.
#[derive(Clone, Copy, Debug, PartialEq, Eq, Structural)]
pub struct Header {
    pub len: u32,
    pub id: u8,
}

impl Header {
    /// A header is plausible when its id is a known message id.
    pub fn test(&self) -> (r: bool)
        ensures
            r == (self.id <= CANCEL || self.id == HANDSHAKE),
    {
        self.id <= CANCEL || self.id == HANDSHAKE
    }

    /// Read a header from the front of `msg` without consuming it.
    pub fn parse(msg: &[u8]) -> (r: Option<Header>)
        ensures
            match r {
                Some(h) => msg@.len() >= 5 && h.len == u32_of_be(msg@)
                    && h.id == msg@[4] && (h.id <= CANCEL || h.id == HANDSHAKE),
                None => msg@.len() < 5
                    || !(msg@[4] <= CANCEL || msg@[4] == HANDSHAKE),
            },
    {
        if msg.len() < 5 {
            return None;
        }
        let head = Header { len: parse_u32(msg), id: msg[4] };
        if head.test() {
            Some(head)
        } else {
            None
        }
    }

    /// The five on-wire bytes of this header.
    pub fn as_bytes(&self) -> (r: Vec<u8>)
        ensures
            r@ == u32_be_bytes(self.len) + seq![self.id],
    {
        let mut buf = u32_to_be(self.len);
        buf.push(self.id);
        proof {
            assert(buf@ =~= u32_be_bytes(self.len) + seq![self.id]);
        }
        buf
    }
}

/// Byte-wise equality of two slices.
pub fn bytes_eq(a: &[u8], b: &[u8]) -> (r: bool)
    ensures
        r == (a@ == b@),
{
    if a.len() != b.len() {
        proof {
            assert(a@.len() != b@.len());
        }
        return false;
    }
    let n = a.len();
    let mut i: usize = 0;
    while i < n
        invariant
            i <= n,
            n == a@.len(),
            n == b@.len(),
            forall|j: int| 0 <= j < i ==> a@[j] == #[trigger] b@[j],
        decreases n - i,
    {
        if a[i] != b[i] {
            return false;
        }
        i = i + 1;
    }
    proof {
        assert(a@ =~= b@);
    }
    true
}

/// Copy `v[a..b]` into a fresh vector.
pub fn copy_range(v: &Vec<u8>, a: usize, b: usize) -> (r: Vec<u8>)
    requires
        a <= b,
        b <= v@.len(),
    ensures
        r@ == v@.subrange(a as int, b as int),
{
    let mut r: Vec<u8> = Vec::new();
    let mut i: usize = a;
    while i < b
        invariant
            a <= i <= b,
            b <= v@.len(),
            r@ =~= v@.subrange(a as int, i as int),
        decreases b - i,
    {
        let x = v[i];
        r.push(x);
        i = i + 1;
    }
    proof {
        assert(r@ =~= v@.subrange(a as int, b as int));
    }
    r
}

/// The 19 protocol-name bytes that every handshake must carry.
pub open spec fn pstr_bytes() -> Seq<u8> {
    seq![
        66u8, 105u8, 116u8, 84u8, 111u8, 114u8, 114u8, 101u8, 110u8, 116u8, 32u8, 112u8,
        114u8, 111u8, 116u8, 111u8, 99u8, 111u8, 108u8,
    ]
}

/// The protocol-name bytes as a vector ("BitTorrent protocol").
pub fn pstr_vec() -> (r: Vec<u8>)
    ensures
        r@ == pstr_bytes(),
{
    let mut r: Vec<u8> = Vec::new();
    r.push(66);
    r.push(105);
    r.push(116);
    r.push(84);
    r.push(111);
    r.push(114);
    r.push(114);
    r.push(101);
    r.push(110);
    r.push(116);
    r.push(32);
    r.push(112);
    r.push(114);
    r.push(111);
    r.push(116);
    r.push(111);
    r.push(99);
    r.push(111);
    r.push(108);
    proof {
        assert(r@ =~= pstr_bytes());
    }
    r
}

/// The fixed 68-byte opening message of every peer connection.
#[derive(Clone, Debug)]
pub struct Handshake {
    pub pstrlen: u8,
    pub pstr: Vec<u8>,
    pub reserved: Vec<u8>,
    pub info_hash: Vec<u8>,
    pub peer_id: Vec<u8>,
}

impl Handshake {
    pub open spec fn wf(self) -> bool {
        &&& self.pstrlen == 19
        &&& self.pstr@ == pstr_bytes()
        &&& self.reserved@.len() == 8
        &&& self.info_hash@.len() == 20
        &&& self.peer_id@.len() == 20
    }

    /// A handshake is valid iff the protocol name and its length match.
    pub fn test(&self) -> (r: bool)
        ensures
            r == (self.pstrlen == 19 && self.pstr@ == pstr_bytes()),
    {
        if self.pstrlen != 19 {
            return false;
        }
        let expected = pstr_vec();
        bytes_eq(self.pstr.as_slice(), expected.as_slice())
    }

    /// Consume a handshake from the front of the buffer.
    pub fn parse(msg: &mut Vec<u8>) -> (r: Option<Handshake>)
        ensures
            match r {
                Some(h) => old(msg)@.len() >= 68 && old(msg)@[0] == 19
                    && old(msg)@.subrange(1, 20) == pstr_bytes()
                    && h.wf()
                    && h.reserved@ == old(msg)@.subrange(20, 28)
                    && h.info_hash@ == old(msg)@.subrange(28, 48)
                    && h.peer_id@ == old(msg)@.subrange(48, 68)
                    && final(msg)@ == old(msg)@.skip(68),
                None => final(msg)@ == old(msg)@ && (old(msg)@.len() < 68
                    || old(msg)@[0] != 19 || old(msg)@.subrange(1, 20) != pstr_bytes()),
            },
    {
        if msg.len() < 68 {
            return None;
        }
        let pstrlen = msg[0];
        let pstr = copy_range(msg, 1, 20);
        let handshake = Handshake {
            pstrlen,
            pstr,
            reserved: copy_range(msg, 20, 28),
            info_hash: copy_range(msg, 28, 48),
            peer_id: copy_range(msg, 48, 68),
        };
        if handshake.test() {
            drop_front(msg, 68);
            Some(handshake)
        } else {
            None
        }
    }

    /// The 68 on-wire bytes of this handshake.
    pub fn as_bytes(&self) -> (r: Vec<u8>)
        requires
            self.wf(),
        ensures
            r@ == seq![19u8] + pstr_bytes() + self.reserved@ + self.info_hash@
                + self.peer_id@,
            r@.len() == 68,
    {
        let mut r: Vec<u8> = Vec::new();
        r.push(19);
        let mut pstr = pstr_vec();
        r.append(&mut pstr);
        let mut reserved = copy_range(&self.reserved, 0, self.reserved.len());
        r.append(&mut reserved);
        let mut info_hash = copy_range(&self.info_hash, 0, self.info_hash.len());
        r.append(&mut info_hash);
        let mut peer_id = copy_range(&self.peer_id, 0, self.peer_id.len());
        r.append(&mut peer_id);
        proof {
            assert(self.reserved@.subrange(0, 8) =~= self.reserved@);
            assert(self.info_hash@.subrange(0, 20) =~= self.info_hash@);
            assert(self.peer_id@.subrange(0, 20) =~= self.peer_id@);
            assert(r@ =~= seq![19u8] + pstr_bytes() + self.reserved@ + self.info_hash@
                + self.peer_id@);
        }
        r
    }
}

impl Default for Handshake {
    /// A canonical handshake with zeroed reserved bytes, info-hash and peer id.
    fn default() -> (r: Handshake)
        ensures
            r.wf(),
            r.reserved@ == Seq::new(8, |i: int| 0u8),
            r.info_hash@ == Seq::new(20, |i: int| 0u8),
            r.peer_id@ == Seq::new(20, |i: int| 0u8),
    {
        let mut reserved: Vec<u8> = Vec::new();
        let mut k: usize = 0;
        while k < 8
            invariant
                k <= 8,
                reserved@ =~= Seq::new(k as nat, |i: int| 0u8),
            decreases 8 - k,
        {
            reserved.push(0);
            k = k + 1;
        }
        let mut zeros20: Vec<u8> = Vec::new();
        let mut j: usize = 0;
        while j < 20
            invariant
                j <= 20,
                zeros20@ =~= Seq::new(j as nat, |i: int| 0u8),
            decreases 20 - j,
        {
            zeros20.push(0);
            j = j + 1;
        }
        let info_hash = copy_range(&zeros20, 0, 20);
        let peer_id = zeros20;
        proof {
            assert(info_hash@ =~= Seq::new(20, |i: int| 0u8));
        }
        Handshake { pstrlen: 19, pstr: pstr_vec(), reserved, info_hash, peer_id }
    }
}

/// `have`: the peer announces one completed piece.
#[derive(Clone, Copy, Debug, PartialEq, Eq, Structural)]
pub struct Have {
    pub header: Header,
    pub index: u32,
}

impl Have {
    pub open spec fn wf(self) -> bool {
        self.header.id == HAVE && self.header.len == 5
    }

    pub fn test(&self) -> (r: bool)
        ensures
            r == self.wf(),
    {
        self.header.id == HAVE && self.header.len == 5
    }

    pub fn parse(msg: &mut Vec<u8>) -> (r: Option<Have>)
        ensures
            match r {
                Some(h) => old(msg)@.len() >= 9
                    && u32_of_be(old(msg)@.subrange(0, 4)) == 5 && old(msg)@[4] == HAVE
                    && h.wf() && h.index == u32_of_be(old(msg)@.subrange(5, 9))
                    && final(msg)@ == old(msg)@.skip(9),
                None => final(msg)@ == old(msg)@ && (old(msg)@.len() < 9
                    || u32_of_be(old(msg)@.subrange(0, 4)) != 5 || old(msg)@[4] != HAVE),
            },
    {
        if msg.len() < 9 {
            return None;
        }
        let len = parse_u32(msg.as_slice());
        let id = msg[4];
        proof {
            assert(u32_of_be(msg@.subrange(0, 4)) == u32_of_be(msg@));
            assert(u32_of_be(msg@.subrange(5, 9)) == u32_of_be(msg@.skip(5)));
        }
        let have = Have {
            header: Header { len, id },
            index: parse_u32(&msg.as_slice()[5..9]),
        };
        if have.test() {
            drop_front(msg, 9);
            Some(have)
        } else {
            None
        }
    }

    /// The nine on-wire bytes of this message.
    pub fn as_bytes(&self) -> (r: Vec<u8>)
        ensures
            r@ == u32_be_bytes(self.header.len) + seq![self.header.id]
                + u32_be_bytes(self.index),
    {
        let mut r = self.header.as_bytes();
        let mut idx = u32_to_be(self.index);
        r.append(&mut idx);
        proof {
            assert(r@ =~= u32_be_bytes(self.header.len) + seq![self.header.id]
                + u32_be_bytes(self.index));
        }
        r
    }
}

/// `bitfield`: one bit per piece the peer already holds.
#[derive(Clone, Debug)]
pub struct Bitfield {
    pub header: Header,
    pub data: Vec<u8>,
}

impl Bitfield {
    pub open spec fn wf(self) -> bool {
        self.header.id == BITFIELD && self.header.len == self.data@.len() + 1
    }

    pub fn test(&self) -> (r: bool)
        ensures
            r == self.wf(),
    {
        if self.header.id != BITFIELD {
            return false;
        }
        if self.data.len() > (u32::MAX - 1) as usize {
            return false;
        }
        self.header.len == (self.data.len() as u32) + 1
    }

    pub fn parse(msg: &mut Vec<u8>) -> (r: Option<Bitfield>)
        ensures
            match r {
                Some(b) => {
                    let len = u32_of_be(old(msg)@.subrange(0, 4)) as int;
                    old(msg)@.len() >= 5 && old(msg)@[4] == BITFIELD && len >= 1
                        && old(msg)@.len() >= len + 4
                        && b.wf() && b.header.len == len
                        && b.data@ == old(msg)@.subrange(5, len + 4)
                        && final(msg)@ == old(msg)@.skip(len + 4)
                },
                None => final(msg)@ == old(msg)@ && (old(msg)@.len() < 5
                    || old(msg)@[4] != BITFIELD
                    || u32_of_be(old(msg)@.subrange(0, 4)) == 0
                    || old(msg)@.len() < u32_of_be(old(msg)@.subrange(0, 4)) + 4),
            },
    {
        if msg.len() < 5 {
            return None;
        }
        let len = parse_u32(msg.as_slice());
        let id = msg[4];
        proof {
            assert(u32_of_be(msg@.subrange(0, 4)) == u32_of_be(msg@));
        }
        if id != BITFIELD || len == 0 {
            return None;
        }
        if (msg.len() as u64) < len as u64 + 4 {
            return None;
        }
        let end = (len as usize) + 4;
        let data = copy_range(msg, 5, end);
        let bitfield = Bitfield { header: Header { len, id }, data };
        drop_front(msg, end);
        Some(bitfield)
    }

    /// The on-wire bytes of this message.
    pub fn as_bytes(&self) -> (r: Vec<u8>)
        ensures
            r@ == u32_be_bytes(self.header.len) + seq![self.header.id] + self.data@,
    {
        let mut r = self.header.as_bytes();
        let mut data = copy_range(&self.data, 0, self.data.len());
        r.append(&mut data);
        proof {
            assert(self.data@.subrange(0, self.data@.len() as int) =~= self.data@);
            assert(r@ =~= u32_be_bytes(self.header.len) + seq![self.header.id]
                + self.data@);
        }
        r
    }
}

/// `request`: ask the peer for one subpiece.
#[derive(Clone, Copy, Debug, PartialEq, Eq, Structural)]
pub struct Request {
    pub header: Header,
    pub index: u32,
    pub begin: u32,
    pub length: u32,
}

impl Request {
    pub open spec fn wf(self) -> bool {
        self.header.id == REQUEST && self.header.len == 13
    }

    pub fn test(&self) -> (r: bool)
        ensures
            r == self.wf(),
    {
        self.header.id == REQUEST && self.header.len == 13
    }

    pub fn parse(msg: &mut Vec<u8>) -> (r: Option<Request>)
        ensures
            match r {
                Some(q) => old(msg)@.len() >= 17
                    && u32_of_be(old(msg)@.subrange(0, 4)) == 13
                    && old(msg)@[4] == REQUEST
                    && q.wf() && q.index == u32_of_be(old(msg)@.subrange(5, 9))
                    && q.begin == u32_of_be(old(msg)@.subrange(9, 13))
                    && q.length == u32_of_be(old(msg)@.subrange(13, 17))
                    && final(msg)@ == old(msg)@.skip(17),
                None => final(msg)@ == old(msg)@ && (old(msg)@.len() < 17
                    || u32_of_be(old(msg)@.subrange(0, 4)) != 13
                    || old(msg)@[4] != REQUEST),
            },
    {
        if msg.len() < 17 {
            return None;
        }
        let len = parse_u32(msg.as_slice());
        let id = msg[4];
        proof {
            assert(u32_of_be(msg@.subrange(0, 4)) == u32_of_be(msg@));
        }
        let req = Request {
            header: Header { len, id },
            index: parse_u32(&msg.as_slice()[5..9]),
            begin: parse_u32(&msg.as_slice()[9..13]),
            length: parse_u32(&msg.as_slice()[13..17]),
        };
        if req.test() && req.header.len == 13 {
            drop_front(msg, 17);
            Some(req)
        } else {
            None
        }
    }

    /// The seventeen on-wire bytes of this message.
    pub fn as_bytes(&self) -> (r: Vec<u8>)
        ensures
            r@ == u32_be_bytes(self.header.len) + seq![self.header.id]
                + u32_be_bytes(self.index) + u32_be_bytes(self.begin)
                + u32_be_bytes(self.length),
    {
        let mut r = self.header.as_bytes();
        let mut index = u32_to_be(self.index);
        r.append(&mut index);
        let mut begin = u32_to_be(self.begin);
        r.append(&mut begin);
        let mut length = u32_to_be(self.length);
        r.append(&mut length);
        proof {
            assert(r@ =~= u32_be_bytes(self.header.len) + seq![self.header.id]
                + u32_be_bytes(self.index) + u32_be_bytes(self.begin)
                + u32_be_bytes(self.length));
        }
        r
    }
}

/// `piece`: one subpiece of payload data.
#[derive(Clone, Debug)]
pub struct Piece {
    pub header: Header,
    pub index: u32,
    pub begin: u32,
    pub data: Vec<u8>,
}

impl Piece {
    pub open spec fn wf(self) -> bool {
        self.header.id == PIECE && self.header.len == self.data@.len() + 9
    }

    pub fn test(&self) -> (r: bool)
        ensures
            r == self.wf(),
    {
        if self.header.id != PIECE {
            return false;
        }
        if self.data.len() > (u32::MAX - 9) as usize {
            return false;
        }
        self.header.len == (self.data.len() as u32) + 9
    }

    pub fn parse(msg: &mut Vec<u8>) -> (r: Option<Piece>)
        ensures
            match r {
                Some(p) => {
                    let len = u32_of_be(old(msg)@.subrange(0, 4)) as int;
                    old(msg)@.len() >= 5 && old(msg)@[4] == PIECE && len >= 9
                        && old(msg)@.len() >= len + 4
                        && p.wf() && p.header.len == len
                        && p.index == u32_of_be(old(msg)@.subrange(5, 9))
                        && p.begin == u32_of_be(old(msg)@.subrange(9, 13))
                        && p.data@ == old(msg)@.subrange(13, len + 4)
                        && final(msg)@ == old(msg)@.skip(len + 4)
                },
                None => final(msg)@ == old(msg)@ && (old(msg)@.len() < 5
                    || old(msg)@[4] != PIECE
                    || u32_of_be(old(msg)@.subrange(0, 4)) < 9
                    || old(msg)@.len() < u32_of_be(old(msg)@.subrange(0, 4)) + 4),
            },
    {
        if msg.len() < 5 {
            return None;
        }
        let len = parse_u32(msg.as_slice());
        let id = msg[4];
        proof {
            assert(u32_of_be(msg@.subrange(0, 4)) == u32_of_be(msg@));
        }
        if id != PIECE || len < 9 {
            return None;
        }
        if (msg.len() as u64) < len as u64 + 4 {
            return None;
        }
        let end = (len as usize) + 4;
        let piece = Piece {
            header: Header { len, id },
            index: parse_u32(&msg.as_slice()[5..9]),
            begin: parse_u32(&msg.as_slice()[9..13]),
            data: copy_range(msg, 13, end),
        };
        drop_front(msg, end);
        Some(piece)
    }

    /// The on-wire bytes of this message.
    pub fn as_bytes(&self) -> (r: Vec<u8>)
        ensures
            r@ == u32_be_bytes(self.header.len) + seq![self.header.id]
                + u32_be_bytes(self.index) + u32_be_bytes(self.begin) + self.data@,
    {
        let mut r = self.header.as_bytes();
        let mut index = u32_to_be(self.index);
        r.append(&mut index);
        let mut begin = u32_to_be(self.begin);
        r.append(&mut begin);
        let mut data = copy_range(&self.data, 0, self.data.len());
        r.append(&mut data);
        proof {
            assert(self.data@.subrange(0, self.data@.len() as int) =~= self.data@);
            assert(r@ =~= u32_be_bytes(self.header.len) + seq![self.header.id]
                + u32_be_bytes(self.index) + u32_be_bytes(self.begin) + self.data@);
        }
        r
    }
}

/// `cancel`: withdraw an earlier request.
#[derive(Clone, Copy, Debug, PartialEq, Eq, Structural)]
pub struct Cancel {
    pub header: Header,
    pub index: u32,
    pub begin: u32,
    pub length: u32,
}

impl Cancel {
    pub open spec fn wf(self) -> bool {
        self.header.id == CANCEL && self.header.len == 13
    }

    pub fn test(&self) -> (r: bool)
        ensures
            r == self.wf(),
    {
        self.header.id == CANCEL && self.header.len == 13
    }

    pub fn parse(msg: &mut Vec<u8>) -> (r: Option<Cancel>)
        ensures
            match r {
                Some(c) => old(msg)@.len() >= 17
                    && u32_of_be(old(msg)@.subrange(0, 4)) == 13
                    && old(msg)@[4] == CANCEL
                    && c.wf() && c.index == u32_of_be(old(msg)@.subrange(5, 9))
                    && c.begin == u32_of_be(old(msg)@.subrange(9, 13))
                    && c.length == u32_of_be(old(msg)@.subrange(13, 17))
                    && final(msg)@ == old(msg)@.skip(17),
                None => final(msg)@ == old(msg)@ && (old(msg)@.len() < 17
                    || u32_of_be(old(msg)@.subrange(0, 4)) != 13
                    || old(msg)@[4] != CANCEL),
            },
    {
        if msg.len() < 17 {
            return None;
        }
        let len = parse_u32(msg.as_slice());
        let id = msg[4];
        proof {
            assert(u32_of_be(msg@.subrange(0, 4)) == u32_of_be(msg@));
        }
        let cancel = Cancel {
            header: Header { len, id },
            index: parse_u32(&msg.as_slice()[5..9]),
            begin: parse_u32(&msg.as_slice()[9..13]),
            length: parse_u32(&msg.as_slice()[13..17]),
        };
        if cancel.test() && cancel.header.len == 13 {
            drop_front(msg, 17);
            Some(cancel)
        } else {
            None
        }
    }

    /// The seventeen on-wire bytes of this message.
    pub fn as_bytes(&self) -> (r: Vec<u8>)
        ensures
            r@ == u32_be_bytes(self.header.len) + seq![self.header.id]
                + u32_be_bytes(self.index) + u32_be_bytes(self.begin)
                + u32_be_bytes(self.length),
    {
        let mut r = self.header.as_bytes();
        let mut index = u32_to_be(self.index);
        r.append(&mut index);
        let mut begin = u32_to_be(self.begin);
        r.append(&mut begin);
        let mut length = u32_to_be(self.length);
        r.append(&mut length);
        proof {
            assert(r@ =~= u32_be_bytes(self.header.len) + seq![self.header.id]
                + u32_be_bytes(self.index) + u32_be_bytes(self.begin)
                + u32_be_bytes(self.length));
        }
        r
    }
}

/// The mathematical form of one decoded message.
pub ghost enum MsgV {
    Handshake { reserved: Seq<u8>, info_hash: Seq<u8>, peer_id: Seq<u8> },
    Choke,
    Unchoke,
    Interested,
    NotInterested,
    Have { index: u32 },
    Bitfield { data: Seq<u8> },
    Request { index: u32, begin: u32, length: u32 },
    Piece { index: u32, begin: u32, data: Seq<u8> },
    Cancel { index: u32, begin: u32, length: u32 },
}

/// One decoded message with its on-wire header.
#[derive(Debug)]
pub enum Message {
    Handshake(Handshake),
    Choke(Header),
    Unchoke(Header),
    Interested(Header),
    NotInterested(Header),
    Have(Have),
    Bitfield(Bitfield),
    Request(Request),
    Piece(Piece),
    Cancel(Cancel),
}

impl View for Message {
    type V = MsgV;

    open spec fn view(&self) -> MsgV {
        match self {
            Message::Handshake(h) => MsgV::Handshake {
                reserved: h.reserved@,
                info_hash: h.info_hash@,
                peer_id: h.peer_id@,
            },
            Message::Choke(_) => MsgV::Choke,
            Message::Unchoke(_) => MsgV::Unchoke,
            Message::Interested(_) => MsgV::Interested,
            Message::NotInterested(_) => MsgV::NotInterested,
            Message::Have(h) => MsgV::Have { index: h.index },
            Message::Bitfield(b) => MsgV::Bitfield { data: b.data@ },
            Message::Request(q) => MsgV::Request {
                index: q.index,
                begin: q.begin,
                length: q.length,
            },
            Message::Piece(p) => MsgV::Piece {
                index: p.index,
                begin: p.begin,
                data: p.data@,
            },
            Message::Cancel(c) => MsgV::Cancel {
                index: c.index,
                begin: c.begin,
                length: c.length,
            },
        }
    }
}

/// The message carries the canonical header for its payload.
pub open spec fn msg_wf(m: Message) -> bool {
    match m {
        Message::Handshake(h) => h.wf(),
        Message::Choke(h) => h.len == 1 && h.id == CHOKE,
        Message::Unchoke(h) => h.len == 1 && h.id == UNCHOKE,
        Message::Interested(h) => h.len == 1 && h.id == INTERESTED,
        Message::NotInterested(h) => h.len == 1 && h.id == NOT_INTERESTED,
        Message::Have(h) => h.wf(),
        Message::Bitfield(b) => b.wf(),
        Message::Request(q) => q.wf(),
        Message::Piece(p) => p.wf(),
        Message::Cancel(c) => c.wf(),
    }
}

/// What the decoder does with the front of a buffer: wait for more bytes,
/// stop on garbage, swallow a keep-alive, or emit one message of `n` bytes.
pub ghost enum Step {
    Incomplete,
    Invalid,
    Skip,
    Emit { m: MsgV, n: int },
}

/// Header-level validity of a framed message: the declared length must fit
/// the fixed shape of its id.
pub open spec fn frame_ok(len: int, id: u8) -> bool {
    if id == CHOKE || id == UNCHOKE || id == INTERESTED || id == NOT_INTERESTED {
        len == 1
    } else if id == HAVE {
        len == 5
    } else if id == BITFIELD {
        len >= 1
    } else if id == REQUEST || id == CANCEL {
        len == 13
    } else if id == PIECE {
        len >= 9
    } else {
        false
    }
}

/// The message denoted by a complete, valid frame at the front of `s`.
pub open spec fn frame_msg(s: Seq<u8>, len: int, id: u8) -> MsgV {
    if id == CHOKE {
        MsgV::Choke
    } else if id == UNCHOKE {
        MsgV::Unchoke
    } else if id == INTERESTED {
        MsgV::Interested
    } else if id == NOT_INTERESTED {
        MsgV::NotInterested
    } else if id == HAVE {
        MsgV::Have { index: u32_of_be(s.subrange(5, 9)) }
    } else if id == BITFIELD {
        MsgV::Bitfield { data: s.subrange(5, len + 4) }
    } else if id == REQUEST {
        MsgV::Request {
            index: u32_of_be(s.subrange(5, 9)),
            begin: u32_of_be(s.subrange(9, 13)),
            length: u32_of_be(s.subrange(13, 17)),
        }
    } else if id == PIECE {
        MsgV::Piece {
            index: u32_of_be(s.subrange(5, 9)),
            begin: u32_of_be(s.subrange(9, 13)),
            data: s.subrange(13, len + 4),
        }
    } else {
        MsgV::Cancel {
            index: u32_of_be(s.subrange(5, 9)),
            begin: u32_of_be(s.subrange(9, 13)),
            length: u32_of_be(s.subrange(13, 17)),
        }
    }
}

/// The framing decision for the front of `s`. A zero length prefix is a
/// keep-alive; byte four distinguishes a framed message id from the fifth
/// byte of a handshake's protocol string.
pub open spec fn step(s: Seq<u8>) -> Step {
    if s.len() < 4 {
        Step::Incomplete
    } else {
        let len = u32_of_be(s.subrange(0, 4)) as int;
        if len == 0 {
            Step::Skip
        } else if s.len() < 5 {
            Step::Incomplete
        } else {
            let id = s[4];
            if id == HANDSHAKE {
                if s.len() < 68 {
                    Step::Incomplete
                } else if s[0] == 19 && s.subrange(1, 20) == pstr_bytes() {
                    Step::Emit {
                        m: MsgV::Handshake {
                            reserved: s.subrange(20, 28),
                            info_hash: s.subrange(28, 48),
                            peer_id: s.subrange(48, 68),
                        },
                        n: 68,
                    }
                } else {
                    Step::Invalid
                }
            } else if id <= CANCEL {
                if !frame_ok(len, id) {
                    Step::Invalid
                } else if s.len() < len + 4 {
                    Step::Incomplete
                } else {
                    Step::Emit { m: frame_msg(s, len, id), n: len + 4 }
                }
            } else {
                Step::Invalid
            }
        }
    }
}

/// All messages the decoder can take off the front of `s`.
pub open spec fn spec_msgs(s: Seq<u8>) -> Seq<MsgV>
    decreases s.len(),
{
    match step(s) {
        Step::Emit { m, n } => if 4 < n <= s.len() {
            seq![m] + spec_msgs(s.skip(n))
        } else {
            seq![m]
        },
        Step::Skip => if s.len() >= 4 {
            spec_msgs(s.skip(4))
        } else {
            Seq::empty()
        },
        _ => Seq::empty(),
    }
}

/// The bytes the decoder leaves in the buffer after taking every complete
/// frame off the front of `s`.
pub open spec fn spec_rem(s: Seq<u8>) -> Seq<u8>
    decreases s.len(),
{
    match step(s) {
        Step::Emit { m, n } => if 4 < n <= s.len() {
            spec_rem(s.skip(n))
        } else {
            s
        },
        Step::Skip => if s.len() >= 4 {
            spec_rem(s.skip(4))
        } else {
            s
        },
        _ => s,
    }
}

pub proof fn lemma_step_emit_bounds(s: Seq<u8>)
    ensures
        step(s) matches Step::Emit { m, n } ==> 4 < n <= s.len(),
        step(s) is Skip ==> s.len() >= 4,
{
}

/// One unfolding of the decoder equations, with the impossible guard
/// branches discharged.
pub proof fn lemma_msgs_unfold(s: Seq<u8>)
    ensures
        step(s) matches Step::Emit { m, n } ==> spec_msgs(s) == seq![m] + spec_msgs(
            s.skip(n),
        ) && spec_rem(s) == spec_rem(s.skip(n)),
        step(s) is Skip ==> spec_msgs(s) == spec_msgs(s.skip(4)) && spec_rem(s)
            == spec_rem(s.skip(4)),
        step(s) is Incomplete ==> spec_msgs(s) == Seq::<MsgV>::empty() && spec_rem(s) == s,
        step(s) is Invalid ==> spec_msgs(s) == Seq::<MsgV>::empty() && spec_rem(s) == s,
{
    lemma_step_emit_bounds(s);
}

/// The views of a sequence of decoded messages.
pub open spec fn views_of(l: Seq<Message>) -> Seq<MsgV> {
    l.map_values(|m: Message| m@)
}

/// True when the buffer is non-empty and holds only zero bytes, as a run of
/// keep-alives or padding does.
pub fn is_zero(msg: &[u8]) -> (r: bool)
    ensures
        r == (msg@.len() > 0 && forall|i: int| 0 <= i < msg@.len() ==> #[trigger] msg@[i] == 0),
{
    if msg.is_empty() {
        return false;
    }
    let n = msg.len();
    let mut i: usize = 0;
    while i < n
        invariant
            i <= n,
            n == msg@.len(),
            forall|j: int| 0 <= j < i ==> #[trigger] msg@[j] == 0,
        decreases n - i,
    {
        if msg[i] != 0 {
            return false;
        }
        i = i + 1;
    }
    true
}

/// True when the bytes at the front of the buffer can never become a valid
/// frame, however many bytes follow: an unknown id, a length that does not
/// fit the id's fixed shape, or a corrupt handshake. Such a frame is fatal
/// for the session, where an incomplete frame only awaits more bytes.
pub fn is_fatal(msg: &[u8]) -> (r: bool)
    ensures
        r == (step(msg@) is Invalid),
{
    let ghost s = msg@;
    if msg.len() < 4 {
        return false;
    }
    let len = parse_u32(msg);
    proof {
        assert(u32_of_be(s.subrange(0, 4)) == u32_of_be(s));
    }
    if len == 0 {
        return false;
    }
    if msg.len() < 5 {
        return false;
    }
    let id = msg[4];
    if id == HANDSHAKE {
        if msg.len() < 68 {
            return false;
        }
        if msg[0] != 19 {
            return true;
        }
        let expected = pstr_vec();
        let same = bytes_eq(&msg[1..20], expected.as_slice());
        proof {
            assert(msg@.subrange(1, 20) == s.subrange(1, 20));
        }
        !same
    } else if id <= CANCEL {
        let shaped = if id <= NOT_INTERESTED {
            len == 1
        } else if id == HAVE {
            len == 5
        } else if id == BITFIELD {
            true
        } else if id == REQUEST || id == CANCEL {
            len == 13
        } else {
            len >= 9
        };
        !shaped
    } else {
        true
    }
}

/// Consume as many complete messages as the buffer holds; the trailing
/// remainder stays in place for the next feed. The boolean reports whether a
/// non-empty buffer was consumed entirely into at least one message: a feed
/// of nothing but keep-alives or padding reports no progress.
pub fn partial_parse(msg: &mut Vec<u8>) -> (r: (bool, Vec<Message>))
    ensures
        final(msg)@ == spec_rem(old(msg)@),
        views_of(r.1@) == spec_msgs(old(msg)@),
        forall|i: int| 0 <= i < r.1@.len() ==> msg_wf(#[trigger] r.1@[i]),
        r.0 == (old(msg)@.len() > 0 && spec_rem(old(msg)@).len() == 0
            && spec_msgs(old(msg)@).len() > 0),
{
    let ghost input = msg@;
    let mut list: Vec<Message> = Vec::new();
    if msg.len() == 0 {
        proof {
            assert(views_of(list@) =~= spec_msgs(input));
        }
        return (false, list);
    }
    let was_nonempty = msg.len() > 0;
    loop
        invariant
            views_of(list@) + spec_msgs(msg@) == spec_msgs(input),
            spec_rem(msg@) == spec_rem(input),
            forall|i: int| 0 <= i < list@.len() ==> msg_wf(#[trigger] list@[i]),
        ensures
            spec_msgs(msg@) == Seq::<MsgV>::empty(),
            spec_rem(msg@) == msg@,
            views_of(list@) + spec_msgs(msg@) == spec_msgs(input),
            spec_rem(msg@) == spec_rem(input),
            forall|i: int| 0 <= i < list@.len() ==> msg_wf(#[trigger] list@[i]),
        decreases msg@.len(),
    {
        let ghost pre = msg@;
        if msg.len() < 4 {
            proof {
                lemma_msgs_unfold(pre);
            }
            break;
        }
        let len = parse_u32(msg.as_slice());
        proof {
            assert(u32_of_be(pre.subrange(0, 4)) == u32_of_be(pre));
        }
        if len == 0 {
            proof {
                assert(step(pre) is Skip);
                lemma_msgs_unfold(pre);
            }
            drop_front(msg, 4);
            continue;
        }
        if msg.len() < 5 {
            proof {
                lemma_msgs_unfold(pre);
            }
            break;
        }
        let id = msg[4];
        if id == HANDSHAKE {
            match Handshake::parse(msg) {
                Some(h) => {
                    proof {
                        let b0 = pre[0];
                        let b1 = pre[1];
                        let b2 = pre[2];
                        let b3 = pre[3];
                        assert((((b0 as u32) << 24) | ((b1 as u32) << 16) | ((b2 as u32) << 8)
                            | (b3 as u32)) != 0) by (bit_vector)
                            requires b0 == 19u8;
                        assert(u32_of_be(pre.subrange(0, 4)) != 0);
                        assert(step(pre) == Step::Emit {
                            m: MsgV::Handshake {
                                reserved: h.reserved@,
                                info_hash: h.info_hash@,
                                peer_id: h.peer_id@,
                            },
                            n: 68,
                        });
                        lemma_msgs_unfold(pre);
                        assert(views_of(list@.push(Message::Handshake(h)))
                            =~= views_of(list@).push(MsgV::Handshake {
                                reserved: h.reserved@,
                                info_hash: h.info_hash@,
                                peer_id: h.peer_id@,
                            }));
                        assert(views_of(list@) + spec_msgs(pre) =~= views_of(
                            list@.push(Message::Handshake(h)),
                        ) + spec_msgs(msg@));
                    }
                    list.push(Message::Handshake(h));
                }
                None => {
                    proof {
                        lemma_msgs_unfold(pre);
                    }
                    break;
                }
            }
        } else if id <= NOT_INTERESTED {
            match Header::parse(msg.as_slice()) {
                Some(h) => {
                    if h.len != 1 {
                        proof {
                            assert(step(pre) is Invalid);
                            lemma_msgs_unfold(pre);
                        }
                        break;
                    }
                    let m = if id == CHOKE {
                        Message::Choke(h)
                    } else if id == UNCHOKE {
                        Message::Unchoke(h)
                    } else if id == INTERESTED {
                        Message::Interested(h)
                    } else {
                        Message::NotInterested(h)
                    };
                    drop_front(msg, 5);
                    proof {
                        assert(step(pre) == Step::Emit { m: m@, n: 5 });
                        lemma_msgs_unfold(pre);
                        assert(views_of(list@.push(m)) =~= views_of(list@).push(m@));
                        assert(views_of(list@) + spec_msgs(pre) =~= views_of(list@.push(m))
                            + spec_msgs(msg@));
                    }
                    list.push(m);
                }
                None => {
                    proof {
                        assert(false);
                    }
                    break;
                }
            }
        } else if id == HAVE {
            match Have::parse(msg) {
                Some(h) => {
                    proof {
                        assert(step(pre) == Step::Emit { m: MsgV::Have { index: h.index }, n: 9 });
                        lemma_msgs_unfold(pre);
                        assert(views_of(list@.push(Message::Have(h)))
                            =~= views_of(list@).push(MsgV::Have { index: h.index }));
                        assert(views_of(list@) + spec_msgs(pre) =~= views_of(
                            list@.push(Message::Have(h)),
                        ) + spec_msgs(msg@));
                    }
                    list.push(Message::Have(h));
                }
                None => {
                    proof {
                        lemma_msgs_unfold(pre);
                    }
                    break;
                }
            }
        } else if id == BITFIELD {
            match Bitfield::parse(msg) {
                Some(b) => {
                    proof {
                        assert(step(pre) == Step::Emit {
                            m: MsgV::Bitfield { data: b.data@ },
                            n: b.header.len + 4,
                        });
                        lemma_msgs_unfold(pre);
                        assert(views_of(list@.push(Message::Bitfield(b)))
                            =~= views_of(list@).push(MsgV::Bitfield { data: b.data@ }));
                        assert(views_of(list@) + spec_msgs(pre) =~= views_of(
                            list@.push(Message::Bitfield(b)),
                        ) + spec_msgs(msg@));
                    }
                    list.push(Message::Bitfield(b));
                }
                None => {
                    proof {
                        lemma_msgs_unfold(pre);
                    }
                    break;
                }
            }
        } else if id == REQUEST {
            match Request::parse(msg) {
                Some(q) => {
                    proof {
                        assert(step(pre) == Step::Emit {
                            m: MsgV::Request { index: q.index, begin: q.begin, length: q.length },
                            n: 17,
                        });
                        lemma_msgs_unfold(pre);
                        assert(views_of(list@.push(Message::Request(q)))
                            =~= views_of(list@).push(MsgV::Request {
                                index: q.index,
                                begin: q.begin,
                                length: q.length,
                            }));
                        assert(views_of(list@) + spec_msgs(pre) =~= views_of(
                            list@.push(Message::Request(q)),
                        ) + spec_msgs(msg@));
                    }
                    list.push(Message::Request(q));
                }
                None => {
                    proof {
                        lemma_msgs_unfold(pre);
                    }
                    break;
                }
            }
        } else if id == PIECE {
            match Piece::parse(msg) {
                Some(p) => {
                    proof {
                        assert(step(pre) == Step::Emit {
                            m: MsgV::Piece { index: p.index, begin: p.begin, data: p.data@ },
                            n: p.header.len + 4,
                        });
                        lemma_msgs_unfold(pre);
                        assert(views_of(list@.push(Message::Piece(p)))
                            =~= views_of(list@).push(MsgV::Piece {
                                index: p.index,
                                begin: p.begin,
                                data: p.data@,
                            }));
                        assert(views_of(list@) + spec_msgs(pre) =~= views_of(
                            list@.push(Message::Piece(p)),
                        ) + spec_msgs(msg@));
                    }
                    list.push(Message::Piece(p));
                }
                None => {
                    proof {
                        lemma_msgs_unfold(pre);
                    }
                    break;
                }
            }
        } else if id == CANCEL {
            match Cancel::parse(msg) {
                Some(c) => {
                    proof {
                        assert(step(pre) == Step::Emit {
                            m: MsgV::Cancel { index: c.index, begin: c.begin, length: c.length },
                            n: 17,
                        });
                        lemma_msgs_unfold(pre);
                        assert(views_of(list@.push(Message::Cancel(c)))
                            =~= views_of(list@).push(MsgV::Cancel {
                                index: c.index,
                                begin: c.begin,
                                length: c.length,
                            }));
                        assert(views_of(list@) + spec_msgs(pre) =~= views_of(
                            list@.push(Message::Cancel(c)),
                        ) + spec_msgs(msg@));
                    }
                    list.push(Message::Cancel(c));
                }
                None => {
                    proof {
                        lemma_msgs_unfold(pre);
                    }
                    break;
                }
            }
        } else {
            proof {
                assert(step(pre) is Invalid);
                lemma_msgs_unfold(pre);
            }
            break;
        }
    }
    let progress = was_nonempty && msg.len() == 0 && list.len() > 0;
    proof {
        assert(views_of(list@) + spec_msgs(msg@) =~= views_of(list@));
    }
    (progress, list)
}

/// Decode every complete message at the front of the buffer.
pub fn parse_msg(msg: &mut Vec<u8>) -> (r: Vec<Message>)
    ensures
        final(msg)@ == spec_rem(old(msg)@),
        views_of(r@) == spec_msgs(old(msg)@),
        forall|i: int| 0 <= i < r@.len() ==> msg_wf(#[trigger] r@[i]),
{
    let (_, list) = partial_parse(msg);
    list
}

/// True when a non-empty buffer decodes completely into at least one
/// message, with no remainder.
pub fn try_parse(original: &[u8]) -> (r: bool)
    ensures
        r == (original@.len() > 0 && spec_rem(original@).len() == 0
            && spec_msgs(original@).len() > 0),
{
    let mut msg = vstd::slice::slice_to_vec(original);
    let (progress, _) = partial_parse(&mut msg);
    progress
}

/// The framing decision about the front of a buffer never changes when more
/// bytes arrive behind it: a consumed frame stays the same frame, a
/// keep-alive stays a keep-alive, garbage stays garbage. (Only `Incomplete`
/// can be revised by new bytes.)
pub proof fn lemma_step_extend(s: Seq<u8>, t: Seq<u8>)
    ensures
        (step(s) matches Step::Emit { m, n } ==> step(s + t) == (Step::Emit { m, n })),
        (step(s) is Skip ==> step(s + t) is Skip),
        (step(s) is Invalid ==> step(s + t) is Invalid),
{
    let u = s + t;
    if s.len() >= 4 {
        assert(u.subrange(0, 4) =~= s.subrange(0, 4));
        if s.len() >= 5 {
            assert(u[4] == s[4]);
            if s.len() >= 68 {
                assert(u.subrange(1, 20) =~= s.subrange(1, 20));
                assert(u.subrange(20, 28) =~= s.subrange(20, 28));
                assert(u.subrange(28, 48) =~= s.subrange(28, 48));
                assert(u.subrange(48, 68) =~= s.subrange(48, 68));
            }
            let len = u32_of_be(s.subrange(0, 4)) as int;
            if 0 < len && s.len() >= len + 4 {
                if len + 4 >= 9 {
                    assert(u.subrange(5, 9) =~= s.subrange(5, 9));
                }
                if len + 4 >= 13 {
                    assert(u.subrange(9, 13) =~= s.subrange(9, 13));
                    assert(u.subrange(13, len + 4) =~= s.subrange(13, len + 4));
                }
                if len + 4 >= 17 {
                    assert(u.subrange(13, 17) =~= s.subrange(13, 17));
                }
                assert(u.subrange(5, len + 4) =~= s.subrange(5, len + 4));
            }
        }
    }
}

/// Streaming equivalence: however a byte stream is cut into chunks, the
/// decoder produces the same messages. Feeding `a` and then `b` (with the
/// remainder of `a` kept in the buffer) yields exactly the messages of the
/// single feed `a + b`, and the same final remainder; chunkings of more
/// pieces follow by applying the equation once per boundary.
pub proof fn lemma_partial_parse_chunking(a: Seq<u8>, b: Seq<u8>)
    ensures
        spec_msgs(a + b) == spec_msgs(a) + spec_msgs(spec_rem(a) + b),
        spec_rem(a + b) == spec_rem(spec_rem(a) + b),
    decreases a.len(),
{
    lemma_step_extend(a, b);
    lemma_msgs_unfold(a);
    lemma_msgs_unfold(a + b);
    match step(a) {
        Step::Emit { m, n } => {
            lemma_step_emit_bounds(a);
            assert((a + b).skip(n) =~= a.skip(n) + b);
            lemma_partial_parse_chunking(a.skip(n), b);
            assert(spec_msgs(a + b) =~= spec_msgs(a) + spec_msgs(spec_rem(a) + b));
        }
        Step::Skip => {
            assert((a + b).skip(4) =~= a.skip(4) + b);
            lemma_partial_parse_chunking(a.skip(4), b);
            assert(spec_msgs(a + b) =~= spec_msgs(a) + spec_msgs(spec_rem(a) + b));
        }
        Step::Incomplete => {
            assert(spec_msgs(a + b) =~= spec_msgs(a) + spec_msgs(spec_rem(a) + b));
        }
        Step::Invalid => {
            lemma_msgs_unfold(spec_rem(a) + b);
            assert(spec_msgs(a + b) =~= spec_msgs(a) + spec_msgs(spec_rem(a) + b));
        }
    }
}

/// A buffer of zero bytes is a run of keep-alives with at most a partial
/// length prefix behind it: the decoder swallows it and emits no message.
pub proof fn lemma_keepalives_silent(s: Seq<u8>)
    requires
        forall|i: int| 0 <= i < s.len() ==> #[trigger] s[i] == 0,
    ensures
        spec_msgs(s) == Seq::<MsgV>::empty(),
    decreases s.len(),
{
    lemma_msgs_unfold(s);
    if s.len() >= 4 {
        assert(((0u8 as u32) << 24) | ((0u8 as u32) << 16) | ((0u8 as u32) << 8) | (
        0u8 as u32) == 0) by (bit_vector);
        assert(u32_of_be(s.subrange(0, 4)) == 0);
        assert(step(s) is Skip);
        lemma_keepalives_silent(s.skip(4));
    }
}

/// The canonical on-wire bytes of a message.
pub open spec fn spec_encode(m: MsgV) -> Seq<u8> {
    match m {
        MsgV::Handshake { reserved, info_hash, peer_id } => seq![19u8] + pstr_bytes()
            + reserved + info_hash + peer_id,
        MsgV::Choke => u32_be_bytes(1) + seq![CHOKE],
        MsgV::Unchoke => u32_be_bytes(1) + seq![UNCHOKE],
        MsgV::Interested => u32_be_bytes(1) + seq![INTERESTED],
        MsgV::NotInterested => u32_be_bytes(1) + seq![NOT_INTERESTED],
        MsgV::Have { index } => u32_be_bytes(5) + seq![HAVE] + u32_be_bytes(index),
        MsgV::Bitfield { data } => u32_be_bytes((data.len() + 1) as u32) + seq![BITFIELD]
            + data,
        MsgV::Request { index, begin, length } => u32_be_bytes(13) + seq![REQUEST]
            + u32_be_bytes(index) + u32_be_bytes(begin) + u32_be_bytes(length),
        MsgV::Piece { index, begin, data } => u32_be_bytes((data.len() + 9) as u32)
            + seq![PIECE] + u32_be_bytes(index) + u32_be_bytes(begin) + data,
        MsgV::Cancel { index, begin, length } => u32_be_bytes(13) + seq![CANCEL]
            + u32_be_bytes(index) + u32_be_bytes(begin) + u32_be_bytes(length),
    }
}

/// A message whose payload fits its on-wire frame.
pub open spec fn msgv_valid(m: MsgV) -> bool {
    match m {
        MsgV::Handshake { reserved, info_hash, peer_id } => reserved.len() == 8
            && info_hash.len() == 20 && peer_id.len() == 20,
        MsgV::Bitfield { data } => data.len() + 1 <= u32::MAX,
        MsgV::Piece { index, begin, data } => data.len() + 9 <= u32::MAX,
        _ => true,
    }
}

/// Round trip: decoding the canonical encoding of any valid message yields
/// exactly that message and leaves nothing behind.
pub proof fn lemma_parse_encode_round_trip(m: MsgV)
    requires
        msgv_valid(m),
    ensures
        spec_msgs(spec_encode(m)) == seq![m],
        spec_rem(spec_encode(m)) == Seq::<u8>::empty(),
{
    let e = spec_encode(m);
    match m {
        MsgV::Handshake { reserved, info_hash, peer_id } => {
            assert(e.len() == 68);
            assert(e[0] == 19);
            let b0 = e[0];
            let b1 = e[1];
            let b2 = e[2];
            let b3 = e[3];
            assert((((b0 as u32) << 24) | ((b1 as u32) << 16) | ((b2 as u32) << 8)
                | (b3 as u32)) != 0) by (bit_vector)
                requires b0 == 19u8;
            assert(e.subrange(0, 4) =~= seq![b0, b1, b2, b3]);
            assert(u32_of_be(e.subrange(0, 4)) != 0);
            assert(e[4] == pstr_bytes()[3]);
            assert(e[4] == HANDSHAKE);
            assert(e.subrange(1, 20) =~= pstr_bytes());
            assert(e.subrange(20, 28) =~= reserved);
            assert(e.subrange(28, 48) =~= info_hash);
            assert(e.subrange(48, 68) =~= peer_id);
            assert(step(e) == Step::Emit { m, n: 68 });
        }
        MsgV::Choke => {
            lemma_u32_be_round_trip(1);
            assert(e.subrange(0, 4) =~= u32_be_bytes(1));
            assert(e[4] == CHOKE);
            assert(step(e) == Step::Emit { m, n: 5 });
        }
        MsgV::Unchoke => {
            lemma_u32_be_round_trip(1);
            assert(e.subrange(0, 4) =~= u32_be_bytes(1));
            assert(e[4] == UNCHOKE);
            assert(step(e) == Step::Emit { m, n: 5 });
        }
        MsgV::Interested => {
            lemma_u32_be_round_trip(1);
            assert(e.subrange(0, 4) =~= u32_be_bytes(1));
            assert(e[4] == INTERESTED);
            assert(step(e) == Step::Emit { m, n: 5 });
        }
        MsgV::NotInterested => {
            lemma_u32_be_round_trip(1);
            assert(e.subrange(0, 4) =~= u32_be_bytes(1));
            assert(e[4] == NOT_INTERESTED);
            assert(step(e) == Step::Emit { m, n: 5 });
        }
        MsgV::Have { index } => {
            lemma_u32_be_round_trip(5);
            lemma_u32_be_round_trip(index);
            assert(e.len() == 9);
            assert(e.subrange(0, 4) =~= u32_be_bytes(5));
            assert(e[4] == HAVE);
            assert(e.subrange(5, 9) =~= u32_be_bytes(index));
            assert(step(e) == Step::Emit { m, n: 9 });
        }
        MsgV::Bitfield { data } => {
            let len32 = (data.len() + 1) as u32;
            lemma_u32_be_round_trip(len32);
            assert(e.len() == 5 + data.len());
            assert(e.subrange(0, 4) =~= u32_be_bytes(len32));
            assert(e[4] == BITFIELD);
            assert(len32 as int == data.len() + 1);
            assert(e.subrange(5, len32 + 4) =~= data);
            assert(step(e) == Step::Emit { m, n: len32 + 4 });
        }
        MsgV::Request { index, begin, length } => {
            lemma_u32_be_round_trip(13);
            lemma_u32_be_round_trip(index);
            lemma_u32_be_round_trip(begin);
            lemma_u32_be_round_trip(length);
            assert(e.len() == 17);
            assert(e.subrange(0, 4) =~= u32_be_bytes(13));
            assert(e[4] == REQUEST);
            assert(e.subrange(5, 9) =~= u32_be_bytes(index));
            assert(e.subrange(9, 13) =~= u32_be_bytes(begin));
            assert(e.subrange(13, 17) =~= u32_be_bytes(length));
            assert(step(e) == Step::Emit { m, n: 17 });
        }
        MsgV::Piece { index, begin, data } => {
            let len32 = (data.len() + 9) as u32;
            lemma_u32_be_round_trip(len32);
            lemma_u32_be_round_trip(index);
            lemma_u32_be_round_trip(begin);
            assert(e.len() == 13 + data.len());
            assert(e.subrange(0, 4) =~= u32_be_bytes(len32));
            assert(e[4] == PIECE);
            assert(len32 as int == data.len() + 9);
            assert(e.subrange(5, 9) =~= u32_be_bytes(index));
            assert(e.subrange(9, 13) =~= u32_be_bytes(begin));
            assert(e.subrange(13, len32 + 4) =~= data);
            assert(step(e) == Step::Emit { m, n: len32 + 4 });
        }
        MsgV::Cancel { index, begin, length } => {
            lemma_u32_be_round_trip(13);
            lemma_u32_be_round_trip(index);
            lemma_u32_be_round_trip(begin);
            lemma_u32_be_round_trip(length);
            assert(e.len() == 17);
            assert(e.subrange(0, 4) =~= u32_be_bytes(13));
            assert(e[4] == CANCEL);
            assert(e.subrange(5, 9) =~= u32_be_bytes(index));
            assert(e.subrange(9, 13) =~= u32_be_bytes(begin));
            assert(e.subrange(13, 17) =~= u32_be_bytes(length));
            assert(step(e) == Step::Emit { m, n: 17 });
        }
    }
    lemma_msgs_unfold(e);
    let n = step(e)->Emit_n;
    assert(e.skip(n) =~= Seq::<u8>::empty());
    lemma_msgs_unfold(Seq::<u8>::empty());
    assert(spec_msgs(e) =~= seq![m]);
}

/// Encode a decoded message back to its canonical on-wire bytes.
pub fn encode_msg(m: &Message) -> (r: Vec<u8>)
    requires
        msg_wf(*m),
    ensures
        r@ == spec_encode(m@),
{
    match m {
        Message::Handshake(h) => {
            let r = h.as_bytes();
            proof {
                assert(r@ =~= spec_encode(m@));
            }
            r
        }
        Message::Choke(h) => {
            let r = h.as_bytes();
            proof {
                assert(r@ =~= spec_encode(m@));
            }
            r
        }
        Message::Unchoke(h) => {
            let r = h.as_bytes();
            proof {
                assert(r@ =~= spec_encode(m@));
            }
            r
        }
        Message::Interested(h) => {
            let r = h.as_bytes();
            proof {
                assert(r@ =~= spec_encode(m@));
            }
            r
        }
        Message::NotInterested(h) => {
            let r = h.as_bytes();
            proof {
                assert(r@ =~= spec_encode(m@));
            }
            r
        }
        Message::Have(h) => {
            let r = h.as_bytes();
            proof {
                assert(r@ =~= spec_encode(m@));
            }
            r
        }
        Message::Bitfield(b) => {
            let r = b.as_bytes();
            proof {
                assert(r@ =~= spec_encode(m@));
            }
            r
        }
        Message::Request(q) => {
            let r = q.as_bytes();
            proof {
                assert(r@ =~= spec_encode(m@));
            }
            r
        }
        Message::Piece(p) => {
            let r = p.as_bytes();
            proof {
                assert(r@ =~= spec_encode(m@));
            }
            r
        }
        Message::Cancel(c) => {
            let r = c.as_bytes();
            proof {
                assert(r@ =~= spec_encode(m@));
            }
            r
        }
    }
}

} // verus!
