//! Piece verification: subpieces of a claimed piece are ordered by their
//! offset, concatenated, hashed with SHA-1 and compared to the expected
//! digest; a match is written to the store and the piece marked COMPLETE, a
//! mismatch returns the piece to EMPTY with nothing written.

use vstd::prelude::*;

use crate::msg::Piece;

verus! {

/// What SHA-1 returns for a byte sequence: a function of the bytes alone.
pub uninterp spec fn sha1_of(data: Seq<u8>) -> Seq<u8>;

/// Relies on the sha1 crate's `Sha1` (`Digest::update` then `finalize`):
/// the 20-byte digest of the input, depending on the input bytes alone.
#[verifier::external_body]
pub(crate) fn sha1_digest(data: &Vec<u8>) -> (r: Vec<u8>)
    ensures
        r@ == sha1_of(data@),
        r@.len() == 20,
{
    let mut hasher = <sha1::Sha1 as sha1::Digest>::new();
    sha1::Digest::update(&mut hasher, data.as_slice());
    sha1::Digest::finalize(hasher).to_vec()
}

/// Split the flat `pieces` digest string into one 20-byte digest per piece.
pub fn split_hashes(hashes: &[u8]) -> (r: Vec<Vec<u8>>)
    ensures
        r@.len() == hashes@.len() / 20,
        forall|i: int| 0 <= i < r@.len() ==> #[trigger] r@[i]@ == hashes@.subrange(
            i * 20,
            i * 20 + 20,
        ),
{
    let hn = hashes.len();
    let num_pieces = hn / 20;
    let mut r: Vec<Vec<u8>> = Vec::new();
    let mut i: usize = 0;
    while i < num_pieces
        invariant
            i <= num_pieces,
            hn == hashes@.len(),
            num_pieces == hashes@.len() / 20,
            r@.len() == i,
            forall|i2: int| 0 <= i2 < i ==> #[trigger] r@[i2]@ == hashes@.subrange(
                i2 * 20,
                i2 * 20 + 20,
            ),
        decreases num_pieces - i,
    {
        let mut one: Vec<u8> = Vec::new();
        let mut k: usize = 0;
        proof {
            assert(i * 20 + 20 <= hashes@.len()) by (nonlinear_arith)
                requires i < hashes@.len() / 20;
        }
        while k < 20
            invariant
                k <= 20,
                hn == hashes@.len(),
                i * 20 + 20 <= hashes@.len(),
                one@.len() == k,
                forall|k2: int| 0 <= k2 < k ==> #[trigger] one@[k2] == hashes@[i * 20 + k2],
            decreases 20 - k,
        {
            let b = hashes[i * 20 + k];
            one.push(b);
            k = k + 1;
        }
        proof {
            assert(one@ =~= hashes@.subrange(i * 20, i * 20 + 20));
        }
        r.push(one);
        i = i + 1;
    }
    r
}

/// The queue of assembled pieces awaiting verification, with the shutdown
/// flag; callers guard it with their own lock and condition variables.
pub struct Hasher {
    pub queue: Vec<Vec<Piece>>,
    pub brk: bool,
}

impl Hasher {
    pub fn new() -> (r: Hasher)
        ensures
            r.queue@.len() == 0,
            !r.brk,
    {
        Hasher { queue: Vec::new(), brk: false }
    }

    /// A producer hands over one assembled piece.
    pub fn push_piece(&mut self, piece: Vec<Piece>)
        ensures
            final(self).queue@ == old(self).queue@.push(piece),
            final(self).brk == old(self).brk,
    {
        self.queue.push(piece);
    }

    /// A worker takes the oldest queued piece, if any.
    pub fn pop_piece(&mut self) -> (r: Option<Vec<Piece>>)
        ensures
            final(self).brk == old(self).brk,
            match r {
                Some(p) => old(self).queue@.len() > 0 && p == old(self).queue@[0]
                    && final(self).queue@ == old(self).queue@.skip(1),
                None => old(self).queue@.len() == 0 && final(self).queue@ == old(
                    self,
                ).queue@,
            },
    {
        if self.queue.len() == 0 {
            None
        } else {
            let p = self.queue.remove(0);
            proof {
                assert(self.queue@ =~= old(self).queue@.skip(1));
            }
            Some(p)
        }
    }

    /// Ask the workers to stop.
    pub fn request_stop(&mut self)
        ensures
            final(self).brk,
            final(self).queue@ == old(self).queue@,
    {
        self.brk = true;
    }
}

/// A subpiece as its offset and bytes.
pub open spec fn subs_view(l: Seq<Piece>) -> Seq<(u32, Seq<u8>)> {
    l.map_values(|p: Piece| (p.begin, p.data@))
}

/// The first index holding the smallest offset.
pub open spec fn min_begin_idx(l: Seq<(u32, Seq<u8>)>) -> int
    decreases l.len(),
{
    if l.len() <= 1 {
        0
    } else {
        let m = min_begin_idx(l.skip(1)) + 1;
        if 0 <= m < l.len() && l[0].0 <= l[m].0 {
            0
        } else {
            m
        }
    }
}

pub proof fn lemma_min_begin(l: Seq<(u32, Seq<u8>)>)
    requires
        l.len() > 0,
    ensures
        0 <= min_begin_idx(l) < l.len(),
        forall|k: int| 0 <= k < l.len() ==> l[min_begin_idx(l)].0 <= (#[trigger] l[k]).0,
        forall|k: int| 0 <= k < min_begin_idx(l) ==> (#[trigger] l[k]).0 > l[min_begin_idx(l)].0,
    decreases l.len(),
{
    if l.len() > 1 {
        lemma_min_begin(l.skip(1));
        assert forall|k: int| 0 <= k < l.len() implies l[min_begin_idx(l)].0 <= (
        #[trigger] l[k]).0 by {
            if k >= 1 {
                assert(l.skip(1)[k - 1] == l[k]);
                assert(l.skip(1)[min_begin_idx(l.skip(1))] == l[min_begin_idx(l.skip(1)) + 1]);
            }
        }
        assert forall|k: int| 0 <= k < min_begin_idx(l) implies (#[trigger] l[k]).0
            > l[min_begin_idx(l)].0 by {
            if k >= 1 {
                assert(l.skip(1)[k - 1] == l[k]);
            }
        }
    }
}

/// The subpieces in ascending offset order: the earliest smallest offset is
/// taken first, repeatedly.
pub open spec fn spec_sorted(l: Seq<(u32, Seq<u8>)>) -> Seq<(u32, Seq<u8>)>
    decreases l.len(),
{
    if l.len() == 0 {
        l
    } else {
        let m = min_begin_idx(l);
        if 0 <= m < l.len() {
            seq![l[m]] + spec_sorted(l.remove(m))
        } else {
            l
        }
    }
}

/// The concatenation of the subpieces' bytes, in list order.
pub open spec fn concat_datas(l: Seq<(u32, Seq<u8>)>) -> Seq<u8>
    decreases l.len(),
{
    if l.len() == 0 {
        Seq::empty()
    } else {
        l[0].1 + concat_datas(l.skip(1))
    }
}

/// How many bytes the first `k` subpieces hold.
pub open spec fn cum_len(l: Seq<(u32, Seq<u8>)>, k: int) -> int
    decreases k,
{
    if k <= 0 {
        0
    } else {
        cum_len(l, k - 1) + l[k - 1].1.len()
    }
}

/// Each subpiece begins exactly where the bytes before it end.
pub open spec fn tiled(l: Seq<(u32, Seq<u8>)>) -> bool {
    forall|k: int| 0 <= k < l.len() ==> (#[trigger] l[k]).0 == cum_len(l, k)
}

pub proof fn lemma_concat_take_step(l: Seq<(u32, Seq<u8>)>, k: int)
    requires
        0 <= k < l.len(),
    ensures
        concat_datas(l.take(k + 1)) == concat_datas(l.take(k)) + l[k].1,
    decreases k,
{
    if k == 0 {
        assert(l.take(0) =~= Seq::<(u32, Seq<u8>)>::empty());
        assert(l.take(1) =~= seq![l[0]]);
        assert(l.take(1).skip(1) =~= Seq::<(u32, Seq<u8>)>::empty());
        assert(concat_datas(Seq::<(u32, Seq<u8>)>::empty()) =~= Seq::<u8>::empty());
        assert(concat_datas(l.take(1)) == l.take(1)[0].1 + concat_datas(l.take(1).skip(1)));
        assert(concat_datas(l.take(1)) =~= l[0].1);
        assert(concat_datas(l.take(0)) + l[0].1 =~= l[0].1);
    } else {
        lemma_concat_take_step(l.skip(1), k - 1);
        assert(l.take(k) =~= seq![l[0]] + l.skip(1).take(k - 1));
        assert(l.take(k + 1) =~= seq![l[0]] + l.skip(1).take(k));
        assert((seq![l[0]] + l.skip(1).take(k - 1)).skip(1) =~= l.skip(1).take(k - 1));
        assert((seq![l[0]] + l.skip(1).take(k)).skip(1) =~= l.skip(1).take(k));
        assert(l.skip(1)[k - 1] == l[k]);
        assert(concat_datas(l.take(k + 1)) =~= concat_datas(l.take(k)) + l[k].1);
    }
}

pub proof fn lemma_concat_len(l: Seq<(u32, Seq<u8>)>)
    ensures
        concat_datas(l).len() == cum_len(l, l.len() as int),
    decreases l.len(),
{
    if l.len() > 0 {
        lemma_concat_len(l.skip(1));
        lemma_cum_shift(l, l.len() as int);
    }
}

/// Prefix sums seen from the second element on.
pub proof fn lemma_cum_shift(l: Seq<(u32, Seq<u8>)>, k: int)
    requires
        1 <= k <= l.len(),
    ensures
        cum_len(l, k) == l[0].1.len() + cum_len(l.skip(1), k - 1),
    decreases k,
{
    if k > 1 {
        lemma_cum_shift(l, k - 1);
        assert(l.skip(1)[k - 2] == l[k - 1]);
    } else {
        assert(cum_len(l, 0) == 0);
        assert(cum_len(l.skip(1), 0) == 0);
        assert(cum_len(l, 1) == l[0].1.len());
    }
}

pub proof fn lemma_cum_mono(l: Seq<(u32, Seq<u8>)>, a: int, b: int)
    requires
        0 <= a <= b,
    ensures
        cum_len(l, a) <= cum_len(l, b),
    decreases b - a,
{
    if a < b {
        lemma_cum_mono(l, a, b - 1);
    }
}

/// Order the subpieces of one piece by ascending offset.
pub fn sort_subpieces(piece: Vec<Piece>) -> (r: Vec<Piece>)
    ensures
        subs_view(r@) == spec_sorted(subs_view(piece@)),
{
    let ghost orig = subs_view(piece@);
    let mut src = piece;
    let mut out: Vec<Piece> = Vec::new();
    proof {
        assert(subs_view(out@) + spec_sorted(subs_view(src@)) =~= spec_sorted(orig));
    }
    while src.len() > 0
        invariant
            subs_view(out@) + spec_sorted(subs_view(src@)) == spec_sorted(orig),
            orig == subs_view(piece@),
        decreases src@.len(),
    {
        let n = src.len();
        let mut best: usize = 0;
        let mut k: usize = 1;
        while k < n
            invariant
                best < k <= n,
                n == src@.len(),
                forall|k2: int| 0 <= k2 < k ==> src@[best as int].begin <= (
                #[trigger] src@[k2]).begin,
                forall|k2: int| 0 <= k2 < best ==> (#[trigger] src@[k2]).begin
                    > src@[best as int].begin,
            decreases n - k,
        {
            if src[k].begin < src[best].begin {
                best = k;
            }
            k = k + 1;
        }
        proof {
            let sv = subs_view(src@);
            lemma_min_begin(sv);
            assert forall|k2: int| 0 <= k2 < sv.len() implies sv[best as int].0 <= (
            #[trigger] sv[k2]).0 by {
                assert(sv[k2] == (src@[k2].begin, src@[k2].data@));
            }
            if min_begin_idx(sv) < best {
                assert(sv[min_begin_idx(sv)].0 > sv[best as int].0);
                assert(false);
            }
            if min_begin_idx(sv) > best {
                assert(sv[best as int].0 > sv[min_begin_idx(sv)].0);
                assert(sv[best as int].0 <= sv[min_begin_idx(sv)].0);
                assert(false);
            }
            assert(min_begin_idx(sv) == best);
        }
        let ghost presrc = src@;
        let p = src.remove(best);
        proof {
            assert(subs_view(src@) =~= subs_view(presrc).remove(best as int));
            assert(subs_view(out@.push(p)) =~= subs_view(out@).push(
                (p.begin, p.data@),
            ));
            assert(subs_view(out@).push((p.begin, p.data@)) + spec_sorted(subs_view(src@))
                =~= subs_view(out@) + (seq![(p.begin, p.data@)] + spec_sorted(
                subs_view(src@),
            )));
            assert(seq![subs_view(presrc)[best as int]] + spec_sorted(subs_view(
                presrc,
            ).remove(best as int)) == spec_sorted(subs_view(presrc)));
        }
        out.push(p);
    }
    proof {
        assert(subs_view(src@) =~= Seq::<(u32, Seq<u8>)>::empty());
        assert(subs_view(out@) + Seq::<(u32, Seq<u8>)>::empty() =~= subs_view(out@));
    }
    out
}

/// How many payload bytes piece `index` occupies: `piece_len`, except that
/// the final piece is cut off at the payload's end.
pub open spec fn piece_region_size(total: int, piece_len: int, index: int) -> int {
    if index * piece_len >= total {
        0
    } else if total - index * piece_len < piece_len {
        total - index * piece_len
    } else {
        piece_len
    }
}

/// The subpieces, ordered by offset, tile a region of exactly `size` bytes
/// whose SHA-1 digest is `expected`.
pub open spec fn piece_ok(subs: Seq<(u32, Seq<u8>)>, expected: Seq<u8>, size: int) -> bool {
    let l = spec_sorted(subs);
    tiled(l) && concat_datas(l).len() == size && sha1_of(concat_datas(l)) == expected
}

/// Verify one assembled piece: order its subpieces, concatenate, hash. On a
/// match the bytes go to the store and the piece becomes COMPLETE; anything
/// else (a hole, an overlap, overflow past the region, a wrong digest)
/// returns the piece to EMPTY with the store untouched.
pub fn process_piece(
    field: &mut crate::field::ByteField,
    store: &mut crate::file::FileStore,
    piece: Vec<Piece>,
    hashes: &Vec<Vec<u8>>,
    piece_len: usize,
) -> (ok: bool)
    requires
        old(field).wf(),
        old(store).wf(),
        piece@.len() > 0,
        hashes@.len() == old(field).arr@.len(),
        (piece@[0].index as int) < old(field).arr@.len(),
        (piece@[0].index as int) * (piece_len as int) + piece_len <= usize::MAX,
    ensures
        final(field).wf(),
        final(store).wf(),
        ({
            let index = piece@[0].index as int;
            let o = crate::file::store_view(*old(store));
            let f = crate::file::store_view(*final(store));
            let total = crate::file::total_len(o);
            let size = piece_region_size(total, piece_len as int, index);
            let l = spec_sorted(subs_view(piece@));
            &&& ok == piece_ok(subs_view(piece@), hashes@[index]@, size)
            &&& final(field).arr@ == old(field).arr@.update(
                index,
                if ok {
                    crate::field::COMPLETE
                } else {
                    crate::field::EMPTY
                },
            )
            &&& f.len() == o.len()
            &&& (forall|j: int| 0 <= j < o.len() ==> (#[trigger] f[j]).len() == o[j].len())
            &&& crate::file::total_len(f) == total
            &&& (ok ==> forall|p: int| 0 <= p < total ==> #[trigger] crate::file::flat_byte(
                f,
                p,
            ) == (
                if index * piece_len <= p < index * piece_len + size {
                    concat_datas(l)[p - index * piece_len]
                } else {
                    crate::file::flat_byte(o, p)
                }
            ))
            &&& (!ok ==> f == o)
        }),
{
    let ghost o = crate::file::store_view(*old(store));
    let index = piece[0].index as usize;
    let start = index * piece_len;
    let total = store.total_length();
    let size = if start >= total {
        0
    } else if total - start < piece_len {
        total - start
    } else {
        piece_len
    };
    let ghost subs = subs_view(piece@);
    let ghost expected = hashes@[index as int]@;
    let sorted = sort_subpieces(piece);
    let ghost l = spec_sorted(subs);
    let n = sorted.len();
    proof {
        assert(subs_view(sorted@).len() == sorted@.len());
    }
    let mut flat: Vec<u8> = Vec::new();
    let mut good = true;
    let mut k: usize = 0;
    proof {
        assert(flat@ =~= concat_datas(l.take(0)));
        assert(concat_datas(l.take(0)) =~= Seq::<u8>::empty());
    }
    while k < n && good
        invariant
            k <= n,
            n == sorted@.len(),
            subs_view(sorted@) == l,
            l == spec_sorted(subs),
            size >= 0,
            good ==> (forall|k2: int| 0 <= k2 < k ==> (#[trigger] l[k2]).0 == cum_len(l, k2)),
            good ==> flat@ == concat_datas(l.take(k as int)),
            good ==> flat@.len() == cum_len(l, k as int),
            good ==> flat@.len() <= size,
            !good ==> !(tiled(l) && concat_datas(l).len() == size),
        decreases n - k,
    {
        proof {
            assert(l[k as int] == (sorted@[k as int].begin, sorted@[k as int].data@));
        }
        let b = sorted[k].begin;
        let dlen = sorted[k].data.len();
        if (b as usize) != flat.len() {
            good = false;
            proof {
                assert(l[k as int].0 != cum_len(l, k as int));
            }
        } else if dlen > size - flat.len() {
            good = false;
            proof {
                assert(cum_len(l, k + 1) == cum_len(l, k as int) + dlen);
                lemma_cum_mono(l, k + 1, l.len() as int);
                lemma_concat_len(l);
                assert(concat_datas(l).len() > size);
            }
        } else {
            let mut chunk = crate::msg::copy_range(&sorted[k].data, 0, dlen);
            flat.append(&mut chunk);
            proof {
                lemma_concat_take_step(l, k as int);
                assert(sorted@[k as int].data@.subrange(0, dlen as int)
                    =~= sorted@[k as int].data@);
                assert(flat@ =~= concat_datas(l.take(k + 1)));
            }
        }
        k = k + 1;
    }
    proof {
        if good {
            assert(l.take(n as int) =~= l);
            lemma_concat_len(l);
            assert(tiled(l));
            assert(flat@ == concat_datas(l));
        }
    }
    let ok = if good && flat.len() == size {
        let digest = sha1_digest(&flat);
        crate::msg::bytes_eq(digest.as_slice(), hashes[index].as_slice())
    } else {
        false
    };
    proof {
        assert(ok == piece_ok(subs, expected, size as int));
    }
    if ok {
        if flat.len() > 0 {
            store.write_range(start, &flat);
        } else {
            proof {
                assert(crate::file::store_view(*store) =~= o);
            }
        }
        field.complete(index);
    } else {
        proof {
            assert(crate::file::store_view(*store) =~= o);
        }
        field.release(index);
    }
    ok
}

pub proof fn lemma_concat_push(l: Seq<(u32, Seq<u8>)>, x: (u32, Seq<u8>))
    ensures
        concat_datas(l.push(x)) == concat_datas(l) + x.1,
    decreases l.len(),
{
    if l.len() == 0 {
        assert(l.push(x)[0] == x);
        assert(l.push(x).skip(1) =~= Seq::<(u32, Seq<u8>)>::empty());
        assert(concat_datas(Seq::<(u32, Seq<u8>)>::empty()) =~= Seq::<u8>::empty());
        assert(concat_datas(l) =~= Seq::<u8>::empty());
        assert(concat_datas(l.push(x)) =~= concat_datas(l) + x.1);
    } else {
        assert(l.push(x)[0] == l[0]);
        assert(l.push(x).skip(1) =~= l.skip(1).push(x));
        lemma_concat_push(l.skip(1), x);
        assert(concat_datas(l.push(x)) =~= concat_datas(l) + x.1);
    }
}

/// A list whose offsets strictly climb is already in sorted order.
pub proof fn lemma_sorted_id(l: Seq<(u32, Seq<u8>)>)
    requires
        forall|a: int, b: int| 0 <= a < b < l.len() ==> (#[trigger] l[a]).0 < (
        #[trigger] l[b]).0,
    ensures
        spec_sorted(l) == l,
    decreases l.len(),
{
    if l.len() > 0 {
        lemma_min_begin(l);
        let m = min_begin_idx(l);
        if m > 0 {
            assert(l[0].0 < l[m].0);
            assert(l[0].0 > l[m].0);
            assert(false);
        }
        assert(l.remove(0) =~= l.skip(1));
        assert forall|a: int, b: int| 0 <= a < b < l.skip(1).len() implies (
        #[trigger] l.skip(1)[a]).0 < (#[trigger] l.skip(1)[b]).0 by {
            assert(l.skip(1)[a] == l[a + 1]);
            assert(l.skip(1)[b] == l[b + 1]);
        }
        lemma_sorted_id(l.skip(1));
        assert(spec_sorted(l) =~= l);
    }
}

/// Prefix sums read only the elements before them.
pub proof fn lemma_cum_prefix(a: Seq<(u32, Seq<u8>)>, b: Seq<(u32, Seq<u8>)>, k: int)
    requires
        forall|j: int| 0 <= j < k ==> a[j] == b[j],
    ensures
        cum_len(a, k) == cum_len(b, k),
    decreases k,
{
    if k > 0 {
        lemma_cum_prefix(a, b, k - 1);
    }
}

/// Scan the payload already on disk: every piece region is read back,
/// split at subpiece boundaries and pushed through verification, so a
/// piece whose bytes hash to the expected digest comes up COMPLETE, any
/// other piece with a region comes up EMPTY, and the store itself is left
/// exactly as it was. No connection is involved: the verdicts come from
/// the disk alone.
pub fn resume_torrent(
    field: &mut crate::field::ByteField,
    store: &mut crate::file::FileStore,
    hashes: &Vec<Vec<u8>>,
    piece_len: usize,
)
    requires
        old(field).wf(),
        old(store).wf(),
        piece_len >= 1,
        piece_len <= u32::MAX,
        hashes@.len() == old(field).arr@.len(),
        old(field).arr@.len() <= u32::MAX,
        (old(field).arr@.len() as int) * piece_len + piece_len <= usize::MAX,
    ensures
        final(field).wf(),
        final(store).wf(),
        crate::file::store_view(*final(store)) == crate::file::store_view(*old(store)),
        final(field).arr@.len() == old(field).arr@.len(),
        forall|i: int| 0 <= i < final(field).arr@.len() ==> #[trigger] final(field).arr@[i]
            == ({
            let o = crate::file::store_view(*old(store));
            let size = piece_region_size(crate::file::total_len(o), piece_len as int, i);
            if size > 0 {
                if sha1_of(crate::file::store_read(o, i * piece_len, size))
                    == hashes@[i]@ {
                    crate::field::COMPLETE
                } else {
                    crate::field::EMPTY
                }
            } else {
                old(field).arr@[i]
            }
        }),
{
    let ghost o = crate::file::store_view(*old(store));
    let num_pieces = field.arr.len();
    let total = store.total_length();
    let mut i: usize = 0;
    while i < num_pieces
        invariant
            field.wf(),
            store.wf(),
            crate::file::store_view(*store) == o,
            o == crate::file::store_view(*old(store)),
            total == crate::file::total_len(o),
            i <= num_pieces,
            num_pieces == field.arr@.len(),
            hashes@.len() == num_pieces,
            piece_len >= 1,
            piece_len <= u32::MAX,
            num_pieces <= u32::MAX,
            (num_pieces as int) * piece_len + piece_len <= usize::MAX,
            forall|i2: int| i <= i2 < num_pieces ==> #[trigger] field.arr@[i2] == old(
                field,
            ).arr@[i2],
            forall|i2: int| 0 <= i2 < i ==> #[trigger] field.arr@[i2] == ({
                let size = piece_region_size(total as int, piece_len as int, i2);
                if size > 0 {
                    if sha1_of(crate::file::store_read(o, i2 * piece_len, size))
                        == hashes@[i2]@ {
                        crate::field::COMPLETE
                    } else {
                        crate::field::EMPTY
                    }
                } else {
                    old(field).arr@[i2]
                }
            }),
        decreases num_pieces - i,
    {
        proof {
            assert((i as int) * piece_len <= (num_pieces as int) * piece_len)
                by (nonlinear_arith)
                requires 0 <= i as int <= num_pieces as int && piece_len >= 1;
            crate::file::lemma_total_len_nonneg(o);
        }
        let start = i * piece_len;
        let size = if start >= total {
            0
        } else if total - start < piece_len {
            total - start
        } else {
            piece_len
        };
        if size > 0 {
            let mut piece: Vec<Piece> = Vec::new();
            let mut begin: usize = 0;
            proof {
                assert(subs_view(piece@) =~= Seq::<(u32, Seq<u8>)>::empty());
                assert(concat_datas(Seq::<(u32, Seq<u8>)>::empty()) =~= Seq::<u8>::empty());
                assert(crate::file::store_read(o, start as int, 0) =~= Seq::<u8>::empty());
            }
            while begin < size
                invariant
                    begin <= size,
                    0 < size <= piece_len <= u32::MAX,
                    start + size <= total,
                    start == i * piece_len,
                    i < num_pieces <= u32::MAX,
                    total == crate::file::total_len(o),
                    crate::file::store_view(*store) == o,
                    store.wf(),
                    forall|k: int| 0 <= k < piece@.len() ==> (#[trigger] piece@[k]).index
                        == i as u32,
                    tiled(subs_view(piece@)),
                    forall|k: int| 0 <= k < subs_view(piece@).len()
                        ==> (#[trigger] subs_view(piece@)[k]).1.len() > 0,
                    cum_len(subs_view(piece@), piece@.len() as int) == begin,
                    concat_datas(subs_view(piece@)) == crate::file::store_read(
                        o,
                        start as int,
                        begin as int,
                    ),
                    begin > 0 ==> piece@.len() > 0,
                decreases size - begin,
            {
                let len = if size - begin < crate::msg::SUBPIECE_LEN as usize {
                    size - begin
                } else {
                    crate::msg::SUBPIECE_LEN as usize
                };
                let data = store.read_range(start + begin, len);
                let p = Piece {
                    header: crate::msg::Header {
                        len: (len as u32) + 9,
                        id: crate::msg::PIECE,
                    },
                    index: i as u32,
                    begin: begin as u32,
                    data,
                };
                proof {
                    let pre = subs_view(piece@);
                    let post = subs_view(piece@.push(p));
                    assert(post =~= pre.push((p.begin, p.data@)));
                    lemma_concat_push(pre, (p.begin, p.data@));
                    assert(crate::file::store_read(o, start as int, begin as int) + p.data@
                        =~= crate::file::store_read(o, start as int, begin + len));
                    lemma_cum_prefix(post, pre, pre.len() as int);
                    assert forall|k: int| 0 <= k < post.len() implies (#[trigger] post[k]).0
                        == cum_len(post, k) by {
                        lemma_cum_prefix(post, pre, k);
                        if k < pre.len() {
                            assert(pre[k].0 == cum_len(pre, k));
                        }
                    }
                }
                piece.push(p);
                begin = begin + len;
            }
            let ghost subs = subs_view(piece@);
            proof {
                assert(piece@.len() > 0);
                assert forall|a: int, b: int| 0 <= a < b < subs.len() implies (
                #[trigger] subs[a]).0 < (#[trigger] subs[b]).0 by {
                    lemma_cum_mono(subs, a + 1, b);
                    assert(cum_len(subs, a + 1) == cum_len(subs, a) + subs[a].1.len());
                }
                lemma_sorted_id(subs);
                lemma_concat_len(subs);
            }
            let ghost field_pre = field.arr@;
            let ok = process_piece(field, store, piece, hashes, piece_len);
            proof {
                let s2 = crate::file::store_view(*store);
                let region = crate::file::store_read(o, start as int, size as int);
                assert(concat_datas(spec_sorted(subs)) == region);
                if ok {
                    assert forall|p2: int| 0 <= p2 < total implies #[trigger] crate::file::flat_byte(
                        s2,
                        p2,
                    ) == crate::file::flat_byte(o, p2) by {
                        if start <= p2 < start + size {
                            assert(crate::file::flat_byte(s2, p2) == region[p2 - start]);
                        }
                    }
                    crate::file::lemma_store_bytes_eq(s2, o);
                }
                assert(field.arr@ == field_pre.update(
                    i as int,
                    if ok {
                        crate::field::COMPLETE
                    } else {
                        crate::field::EMPTY
                    },
                ));
                assert(ok == (sha1_of(region) == hashes@[i as int]@));
            }
        }
        i = i + 1;
    }
}

/// The views of the per-piece digests.
pub open spec fn hashes_view(h: Seq<Vec<u8>>) -> Seq<Seq<u8>> {
    h.map_values(|d: Vec<u8>| d@)
}

/// Every COMPLETE piece's bytes in the store hash to its expected digest.
pub open spec fn pieces_verified(
    arr: Seq<u8>,
    files: Seq<Seq<u8>>,
    hashes: Seq<Seq<u8>>,
    piece_len: int,
) -> bool {
    forall|i: int| 0 <= i < arr.len() && (#[trigger] arr[i]) == crate::field::COMPLETE
        ==> sha1_of(
            crate::file::store_read(
                files,
                i * piece_len,
                piece_region_size(crate::file::total_len(files), piece_len, i),
            ),
        ) == hashes[i]
}

/// A piece only becomes COMPLETE with the matching bytes on disk, so
/// verifying one more piece preserves the truth of every COMPLETE mark:
/// the pieces-verified invariant survives `process_piece`, whichever way
/// the verdict went.
pub proof fn lemma_process_preserves_verified(
    arr0: Seq<u8>,
    arr1: Seq<u8>,
    files0: Seq<Seq<u8>>,
    files1: Seq<Seq<u8>>,
    hashes: Seq<Seq<u8>>,
    piece_len: int,
    index: int,
    data: Seq<u8>,
    ok: bool,
)
    requires
        pieces_verified(arr0, files0, hashes, piece_len),
        piece_len >= 1,
        0 <= index < arr0.len(),
        arr1 == arr0.update(
            index,
            if ok {
                crate::field::COMPLETE
            } else {
                crate::field::EMPTY
            },
        ),
        files1.len() == files0.len(),
        forall|j: int| 0 <= j < files0.len() ==> (#[trigger] files1[j]).len() == files0[j].len(),
        crate::file::total_len(files1) == crate::file::total_len(files0),
        ok ==> data.len() == piece_region_size(crate::file::total_len(files0), piece_len, index)
            && sha1_of(data) == hashes[index],
        ok ==> forall|p: int| 0 <= p < crate::file::total_len(files0)
            ==> #[trigger] crate::file::flat_byte(files1, p) == (
                if index * piece_len <= p < index * piece_len + data.len() {
                    data[p - index * piece_len]
                } else {
                    crate::file::flat_byte(files0, p)
                }
            ),
        !ok ==> files1 == files0,
    ensures
        pieces_verified(arr1, files1, hashes, piece_len),
{
    let total = crate::file::total_len(files0);
    crate::file::lemma_total_len_nonneg(files0);
    assert forall|i: int|
        0 <= i < arr1.len() && (#[trigger] arr1[i]) == crate::field::COMPLETE implies sha1_of(
        crate::file::store_read(
            files1,
            i * piece_len,
            piece_region_size(crate::file::total_len(files1), piece_len, i),
        ),
    ) == hashes[i] by {
        let size_i = piece_region_size(total, piece_len, i);
        if ok {
            if i == index {
                assert(crate::file::store_read(files1, i * piece_len, size_i) =~= data);
            } else {
                assert(arr0[i] == crate::field::COMPLETE);
                if i < index {
                    assert((i + 1) * piece_len <= index * piece_len) by (nonlinear_arith)
                        requires i + 1 <= index && piece_len >= 1;
                    assert((i + 1) * piece_len == i * piece_len + piece_len) by (nonlinear_arith);
                    assert(i * piece_len + size_i <= index * piece_len);
                } else {
                    assert((index + 1) * piece_len <= i * piece_len) by (nonlinear_arith)
                        requires index + 1 <= i && piece_len >= 1;
                    assert((index + 1) * piece_len == index * piece_len + piece_len)
                        by (nonlinear_arith);
                    assert(index * piece_len + data.len() <= i * piece_len);
                }
                assert(i * piece_len >= 0) by (nonlinear_arith)
                    requires i >= 0 && piece_len >= 1;
                assert(crate::file::store_read(files1, i * piece_len, size_i)
                    =~= crate::file::store_read(files0, i * piece_len, size_i));
            }
        } else {
            assert(arr0[i] == crate::field::COMPLETE);
            assert(crate::file::store_read(files1, i * piece_len, size_i)
                =~= crate::file::store_read(files0, i * piece_len, size_i));
        }
    }
}

} // verus!
