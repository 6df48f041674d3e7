//! Per-connection decisions: the requests a fetcher issues for a claimed
//! piece, and the response a seeder owes to a peer's request.

use vstd::prelude::*;

use crate::field::{ByteField, COMPLETE};
use crate::file::{FileStore, store_view, store_read, total_len};
use crate::hash::piece_region_size;
use crate::msg::{Header, Piece, Request, MsgV, spec_encode, PIECE, REQUEST, SUBPIECE_LEN};

verus! {

/// The shutdown flag the connection tasks poll; the app pairs it with its
/// piece-available condition variable.
pub struct Connector {
    pub brk: bool,
}

impl Connector {
    pub fn new() -> (r: Connector)
        ensures
            !r.brk,
    {
        Connector { brk: false }
    }

    pub fn request_stop(&mut self)
        ensures
            final(self).brk,
    {
        self.brk = true;
    }

    pub fn stopped(&self) -> (r: bool)
        ensures
            r == self.brk,
    {
        self.brk
    }
}

/// The subpiece requests a fetcher sends for a freshly claimed piece: one
/// per subpiece, offsets climbing by SUBPIECE_LEN, each of SUBPIECE_LEN
/// bytes except the last of a short final piece, which is truncated so that
/// no request reaches past the payload.
pub fn build_piece_requests(index: usize, piece_len: usize, total: usize) -> (r: Vec<Request>)
    requires
        piece_len > 0,
        piece_len <= u32::MAX,
        index <= u32::MAX,
        index * piece_len + piece_len <= usize::MAX,
    ensures
        ({
            let size = piece_region_size(total as int, piece_len as int, index as int);
            &&& r@.len() == (size + SUBPIECE_LEN - 1) / (SUBPIECE_LEN as int)
            &&& forall|k: int| 0 <= k < r@.len() ==> {
                let q = #[trigger] r@[k];
                &&& q.wf()
                &&& q.index == index
                &&& q.begin == k * SUBPIECE_LEN
                &&& q.length == (
                    if (k + 1) * SUBPIECE_LEN <= size {
                        SUBPIECE_LEN as int
                    } else {
                        size - k * SUBPIECE_LEN
                    }
                )
                &&& index * piece_len + q.begin + q.length <= total
            }
        }),
{
    let start = index * piece_len;
    let ghost size = piece_region_size(total as int, piece_len as int, index as int);
    let psize = if start >= total {
        0
    } else if total - start < piece_len {
        total - start
    } else {
        piece_len
    };
    let mut r: Vec<Request> = Vec::new();
    let mut begin: usize = 0;
    let mut k: usize = 0;
    while begin < psize
        invariant
            psize == size,
            0 <= size <= piece_len <= u32::MAX,
            psize > 0 ==> start + psize <= total,
            start == index * piece_len,
            index <= u32::MAX,
            begin <= psize,
            k <= begin,
            begin < psize ==> begin == k * SUBPIECE_LEN,
            begin >= psize ==> ((k == 0 && psize == 0) || ((k - 1) * SUBPIECE_LEN < psize
                && psize <= k * SUBPIECE_LEN && begin == psize)),
            r@.len() == k,
            forall|k2: int| 0 <= k2 < k ==> {
                let q = #[trigger] r@[k2];
                &&& q.wf()
                &&& q.index == index
                &&& q.begin == k2 * SUBPIECE_LEN
                &&& q.length == (
                    if (k2 + 1) * SUBPIECE_LEN <= size {
                        SUBPIECE_LEN as int
                    } else {
                        size - k2 * SUBPIECE_LEN
                    }
                )
                &&& index * piece_len + q.begin + q.length <= total
            },
        decreases psize - begin,
    {
        let length = if psize - begin < SUBPIECE_LEN as usize {
            psize - begin
        } else {
            SUBPIECE_LEN as usize
        };
        let q = Request {
            header: Header { len: 13, id: REQUEST },
            index: index as u32,
            begin: begin as u32,
            length: length as u32,
        };
        r.push(q);
        begin = begin + length;
        k = k + 1;
    }
    proof {
        if size == 0 {
            assert(r@.len() == 0);
            assert((size + SUBPIECE_LEN - 1) / (SUBPIECE_LEN as int) == 0);
        } else {
            assert((k - 1) * SUBPIECE_LEN < size <= k * SUBPIECE_LEN);
            assert(k == (size + SUBPIECE_LEN - 1) / (SUBPIECE_LEN as int)) by (nonlinear_arith)
                requires
                    (k - 1) * (SUBPIECE_LEN as int) < size <= k * (SUBPIECE_LEN as int),
                    k >= 1,
                    size >= 1;
        }
    }
    r
}

/// A seeder's answer to one `request`: if the piece is COMPLETE, the
/// requested subpiece is read back from the files and framed as a `piece`
/// message; a request for an unfinished piece, an out-of-range index or an
/// offset past the payload is ignored.
pub fn fulfill_req(
    field: &ByteField,
    store: &FileStore,
    piece_len: usize,
    req: &Request,
) -> (r: Option<Vec<u8>>)
    requires
        field.wf(),
        store.wf(),
        piece_len > 0,
    ensures
        ({
            let start = req.index * piece_len + req.begin;
            let total = total_len(store_view(*store));
            match r {
                Some(bytes) => (req.index as int) < field.arr@.len()
                    && field.arr@[req.index as int] == COMPLETE && start < total && ({
                    let rlen = if total - start < SUBPIECE_LEN {
                        total - start
                    } else {
                        SUBPIECE_LEN as int
                    };
                    bytes@ == spec_encode(
                        MsgV::Piece {
                            index: req.index,
                            begin: req.begin,
                            data: store_read(store_view(*store), start, rlen),
                        },
                    )
                }),
                None => (req.index as int) >= field.arr@.len()
                    || field.arr@[req.index as int] != COMPLETE || start >= total,
            }
        }),
{
    let index = req.index as usize;
    if index >= field.arr.len() {
        return None;
    }
    if !field.is_complete(index) {
        return None;
    }
    let total = store.total_length();
    proof {
        crate::file::lemma_total_len_nonneg(store_view(*store));
    }
    let prod = match index.checked_mul(piece_len) {
        Some(p) => p,
        None => {
            return None;
        }
    };
    let start = match prod.checked_add(req.begin as usize) {
        Some(v) => v,
        None => {
            return None;
        }
    };
    if start >= total {
        return None;
    }
    let data = store.read_subpiece(index, req.begin as usize, piece_len);
    let dlen = data.len();
    let piece = Piece {
        header: Header { len: (dlen as u32) + 9, id: PIECE },
        index: req.index,
        begin: req.begin,
        data,
    };
    let bytes = piece.as_bytes();
    proof {
        assert(bytes@ =~= spec_encode(
            MsgV::Piece { index: piece.index, begin: piece.begin, data: piece.data@ },
        ));
    }
    Some(bytes)
}

} // verus!
