//! Piece-to-file mapping over the linear concatenation of the torrent's
//! files, and an explicit byte store standing for their on-disk contents.
//! A byte range is addressed by its position in the concatenation; writes
//! and reads walk the files in declaration order and spill across
//! boundaries.

use vstd::prelude::*;

verus! {

/// The contents of every file, in declaration order.
pub struct FileStore {
    pub files: Vec<Vec<u8>>,
}

/// The store as a sequence of byte sequences.
pub open spec fn store_view(s: FileStore) -> Seq<Seq<u8>> {
    s.files@.map_values(|f: Vec<u8>| f@)
}

/// The length of the concatenation of all files.
pub open spec fn total_len(files: Seq<Seq<u8>>) -> int
    decreases files.len(),
{
    if files.len() == 0 {
        0
    } else {
        files[0].len() + total_len(files.skip(1))
    }
}

/// Where file `j` begins in the concatenation.
pub open spec fn offset_of(files: Seq<Seq<u8>>, j: int) -> int {
    total_len(files.take(j))
}

/// The byte at position `pos` of the concatenation.
pub open spec fn flat_byte(files: Seq<Seq<u8>>, pos: int) -> u8
    decreases files.len(),
{
    if files.len() == 0 {
        0
    } else if pos < files[0].len() {
        if pos >= 0 {
            files[0][pos]
        } else {
            0
        }
    } else {
        flat_byte(files.skip(1), pos - files[0].len())
    }
}

/// The `len` bytes of the concatenation that start at `start`.
pub open spec fn store_read(files: Seq<Seq<u8>>, start: int, len: int) -> Seq<u8> {
    Seq::new(len as nat, |i: int| flat_byte(files, start + i))
}

pub proof fn lemma_total_len_nonneg(files: Seq<Seq<u8>>)
    ensures
        total_len(files) >= 0,
    decreases files.len(),
{
    if files.len() > 0 {
        lemma_total_len_nonneg(files.skip(1));
    }
}

/// A prefix of the files fills a prefix of the concatenation.
pub proof fn lemma_offset_step(files: Seq<Seq<u8>>, j: int)
    requires
        0 <= j < files.len(),
    ensures
        offset_of(files, j + 1) == offset_of(files, j) + files[j].len(),
    decreases j,
{
    if j == 0 {
        assert(files.take(0) =~= Seq::<Seq<u8>>::empty());
        assert(files.take(1) =~= seq![files[0]]);
        assert(files.take(1).skip(1) =~= Seq::<Seq<u8>>::empty());
    } else {
        lemma_offset_step(files.skip(1), j - 1);
        assert(files.take(j) =~= seq![files[0]] + files.skip(1).take(j - 1));
        assert(files.take(j + 1) =~= seq![files[0]] + files.skip(1).take(j));
        assert((seq![files[0]] + files.skip(1).take(j - 1)).skip(1) =~= files.skip(1).take(
            j - 1,
        ));
        assert((seq![files[0]] + files.skip(1).take(j)).skip(1) =~= files.skip(1).take(j));
        assert(files.skip(1)[j - 1] == files[j]);
    }
}

pub proof fn lemma_offset_bounds(files: Seq<Seq<u8>>, j: int)
    requires
        0 <= j <= files.len(),
    ensures
        0 <= offset_of(files, j) <= total_len(files),
    decreases j,
{
    if j == 0 {
        assert(files.take(0) =~= Seq::<Seq<u8>>::empty());
        lemma_total_len_nonneg(files);
    } else {
        lemma_offset_bounds(files, j - 1);
        lemma_offset_step(files, j - 1);
        if j < files.len() {
            lemma_offset_within(files, j);
        } else {
            assert(files.take(j) =~= files);
        }
    }
}

/// Each file lies inside the concatenation.
pub proof fn lemma_offset_within(files: Seq<Seq<u8>>, j: int)
    requires
        0 <= j < files.len(),
    ensures
        offset_of(files, j) + files[j].len() <= total_len(files),
    decreases j,
{
    lemma_offset_step(files, j);
    lemma_offset_take_total(files, j + 1);
}

/// What the first `j` files fill is at most the whole.
pub proof fn lemma_offset_take_total(files: Seq<Seq<u8>>, j: int)
    requires
        0 <= j <= files.len(),
    ensures
        offset_of(files, j) <= total_len(files),
    decreases files.len(),
{
    if j > 0 && files.len() > 0 {
        lemma_offset_take_total(files.skip(1), j - 1);
        assert(files.take(j) =~= seq![files[0]] + files.skip(1).take(j - 1));
        assert((seq![files[0]] + files.skip(1).take(j - 1)).skip(1) =~= files.skip(1).take(
            j - 1,
        ));
        lemma_total_len_nonneg(files.skip(1).take(j - 1));
    } else {
        assert(files.take(0) =~= Seq::<Seq<u8>>::empty());
        lemma_total_len_nonneg(files);
    }
}

/// Position `offset_of(j) + i` of the concatenation is byte `i` of file `j`.
pub proof fn lemma_flat_byte_at(files: Seq<Seq<u8>>, j: int, i: int)
    requires
        0 <= j < files.len(),
        0 <= i < files[j].len(),
    ensures
        flat_byte(files, offset_of(files, j) + i) == files[j][i],
    decreases j,
{
    if j == 0 {
        assert(files.take(0) =~= Seq::<Seq<u8>>::empty());
    } else {
        lemma_flat_byte_at(files.skip(1), j - 1, i);
        assert(files.take(j) =~= seq![files[0]] + files.skip(1).take(j - 1));
        assert((seq![files[0]] + files.skip(1).take(j - 1)).skip(1) =~= files.skip(1).take(
            j - 1,
        ));
        lemma_total_len_nonneg(files.skip(1).take(j - 1));
        assert(files.skip(1)[j - 1] == files[j]);
    }
}

/// Offsets never move backwards along the file list.
pub proof fn lemma_offset_mono(files: Seq<Seq<u8>>, a: int, b: int)
    requires
        0 <= a <= b <= files.len(),
    ensures
        offset_of(files, a) <= offset_of(files, b),
    decreases b - a,
{
    if a < b {
        lemma_offset_step(files, a);
        lemma_offset_mono(files, a + 1, b);
    }
}

impl FileStore {
    /// The concatenation is addressable with a machine word.
    pub open spec fn wf(self) -> bool {
        total_len(store_view(self)) <= usize::MAX
    }

    /// A store of zero-filled files with the given lengths.
    pub fn new(lengths: &Vec<usize>) -> (r: FileStore)
        requires
            total_of(lengths@) <= usize::MAX,
        ensures
            r.wf(),
            store_view(r).len() == lengths@.len(),
            forall|j: int| 0 <= j < lengths@.len() ==> #[trigger] store_view(r)[j].len()
                == lengths@[j],
            forall|j: int, i: int|
                0 <= j < lengths@.len() && 0 <= i < lengths@[j] ==> #[trigger] store_view(
                    r,
                )[j][i] == 0,
    {
        let mut files: Vec<Vec<u8>> = Vec::new();
        let n = lengths.len();
        let mut j: usize = 0;
        while j < n
            invariant
                j <= n,
                n == lengths@.len(),
                files@.len() == j,
                forall|j2: int| 0 <= j2 < j ==> #[trigger] files@[j2]@.len() == lengths@[j2],
                forall|j2: int, i: int|
                    0 <= j2 < j && 0 <= i < lengths@[j2] ==> #[trigger] files@[j2]@[i] == 0,
            decreases n - j,
        {
            let flen = lengths[j];
            let mut f: Vec<u8> = Vec::new();
            let mut i: usize = 0;
            while i < flen
                invariant
                    i <= flen,
                    f@.len() == i,
                    forall|i2: int| 0 <= i2 < i ==> #[trigger] f@[i2] == 0,
                decreases flen - i,
            {
                f.push(0);
                i = i + 1;
            }
            files.push(f);
            j = j + 1;
        }
        let r = FileStore { files };
        proof {
            lemma_total_matches(store_view(r), lengths@);
        }
        r
    }

    /// The length of the concatenation.
    pub fn total_length(&self) -> (r: usize)
        requires
            self.wf(),
        ensures
            r == total_len(store_view(*self)),
    {
        let n = self.files.len();
        let ghost v = store_view(*self);
        let mut sum: usize = 0;
        let mut j: usize = 0;
        proof {
            assert(v.take(0) =~= Seq::<Seq<u8>>::empty());
        }
        while j < n
            invariant
                j <= n,
                n == store_view(*self).len(),
                v == store_view(*self),
                self.wf(),
                sum == offset_of(v, j as int),
            decreases n - j,
        {
            proof {
                lemma_offset_step(v, j as int);
                lemma_offset_within(v, j as int);
                lemma_total_len_nonneg(v);
            }
            sum = sum + self.files[j].len();
            j = j + 1;
        }
        proof {
            assert(v.take(n as int) =~= v);
        }
        sum
    }
}

/// The sum of declared lengths.
pub open spec fn total_of(lengths: Seq<usize>) -> int
    decreases lengths.len(),
{
    if lengths.len() == 0 {
        0
    } else {
        lengths[0] + total_of(lengths.skip(1))
    }
}

/// Files with exactly the declared lengths concatenate to their sum.
pub proof fn lemma_total_matches(files: Seq<Seq<u8>>, lengths: Seq<usize>)
    requires
        files.len() == lengths.len(),
        forall|j: int| 0 <= j < files.len() ==> #[trigger] files[j].len() == lengths[j],
    ensures
        total_len(files) == total_of(lengths),
    decreases files.len(),
{
    if files.len() > 0 {
        assert forall|j: int| 0 <= j < files.skip(1).len() implies #[trigger] files.skip(
            1,
        )[j].len() == lengths.skip(1)[j] by {
            assert(files.skip(1)[j] == files[j + 1]);
        }
        lemma_total_matches(files.skip(1), lengths.skip(1));
    }
}

/// A copy of `f` with `src[from..from+cnt]` laid over positions
/// `at..at+cnt`.
pub fn splice(f: &Vec<u8>, at: usize, src: &Vec<u8>, from: usize, cnt: usize) -> (r: Vec<u8>)
    requires
        at + cnt <= f@.len(),
        from + cnt <= src@.len(),
    ensures
        r@.len() == f@.len(),
        forall|i: int| 0 <= i < f@.len() ==> #[trigger] r@[i] == (
            if at <= i < at + cnt {
                src@[from + i - at]
            } else {
                f@[i]
            }
        ),
{
    let n = f.len();
    let srclen = src.len();
    let mut r: Vec<u8> = Vec::new();
    let mut i: usize = 0;
    while i < n
        invariant
            i <= n,
            n == f@.len(),
            at + cnt <= f@.len(),
            from + cnt <= srclen,
            srclen == src@.len(),
            r@.len() == i,
            forall|i2: int| 0 <= i2 < i ==> #[trigger] r@[i2] == (
                if at <= i2 < at + cnt {
                    src@[from + i2 - at]
                } else {
                    f@[i2]
                }
            ),
        decreases n - i,
    {
        if at <= i && i < at + cnt {
            let b = src[from + (i - at)];
            r.push(b);
        } else {
            let b = f[i];
            r.push(b);
        }
        i = i + 1;
    }
    r
}

impl FileStore {
    /// Lay `data` over the concatenation at `start`, walking the files in
    /// declaration order and spilling across boundaries.
    pub fn write_range(&mut self, start: usize, data: &Vec<u8>)
        requires
            old(self).wf(),
            start + data@.len() <= total_len(store_view(*old(self))),
        ensures
            final(self).wf(),
            store_view(*final(self)).len() == store_view(*old(self)).len(),
            forall|j: int| 0 <= j < store_view(*old(self)).len()
                ==> #[trigger] store_view(*final(self))[j].len() == store_view(
                    *old(self),
                )[j].len(),
            total_len(store_view(*final(self))) == total_len(store_view(*old(self))),
            forall|p: int| 0 <= p < total_len(store_view(*old(self)))
                ==> #[trigger] flat_byte(store_view(*final(self)), p) == (
                    if start <= p < start + data@.len() {
                        data@[p - start]
                    } else {
                        flat_byte(store_view(*old(self)), p)
                    }
                ),
    {
        let ghost o = store_view(*old(self));
        let nfiles = self.files.len();
        let mut j: usize = 0;
        let mut pos: usize = start;
        proof {
            assert(o.take(0) =~= Seq::<Seq<u8>>::empty());
        }
        while j < nfiles && pos >= self.files[j].len()
            invariant
                j <= nfiles,
                nfiles == o.len(),
                store_view(*self) == o,
                offset_of(o, j as int) == start - pos,
            decreases nfiles - j,
        {
            proof {
                lemma_offset_step(o, j as int);
            }
            pos = pos - self.files[j].len();
            j = j + 1;
        }
        let dlen = data.len();
        let mut d: usize = 0;
        proof {
            lemma_total_len_nonneg(o);
            if j == nfiles {
                assert(o.take(nfiles as int) =~= o);
            }
            assert forall|j2: int| 0 <= j2 < o.len() implies (#[trigger] self.files@[j2]@.len())
                == o[j2].len() by {
                assert(o[j2] == self.files@[j2]@);
            }
            assert forall|j2: int, i: int|
                0 <= j2 < o.len() && 0 <= i < o[j2].len() implies (#[trigger] self.files@[j2]@[i])
                == o[j2][i] by {
                assert(o[j2] == self.files@[j2]@);
            }
        }
        while d < dlen
            invariant
                j <= nfiles,
                nfiles == o.len(),
                d <= dlen,
                dlen == data@.len(),
                start + dlen <= total_len(o),
                self.files@.len() == o.len(),
                forall|j2: int| 0 <= j2 < o.len() ==> (#[trigger] self.files@[j2]@.len())
                    == o[j2].len(),
                offset_of(o, j as int) == start + d - pos,
                j < nfiles ==> pos <= o[j as int].len(),
                j == nfiles ==> d == dlen,
                forall|j2: int, i: int|
                    0 <= j2 < o.len() && 0 <= i < o[j2].len() ==> (#[trigger] self.files@[j2]@[i])
                        == (
                        if start <= offset_of(o, j2) + i < start + d {
                            data@[offset_of(o, j2) + i - start]
                        } else {
                            o[j2][i]
                        }
                    ),
            decreases dlen - d, nfiles - j,
        {
            let flen = self.files[j].len();
            if pos >= flen {
                proof {
                    lemma_offset_step(o, j as int);
                    if j + 1 == nfiles {
                        assert(o.take(nfiles as int) =~= o);
                    }
                }
                j = j + 1;
                pos = 0;
            } else {
                let ghost prefiles = self.files@;
                let cnt = if flen - pos < dlen - d {
                    flen - pos
                } else {
                    dlen - d
                };
                let newf = splice(&self.files[j], pos, data, d, cnt);
                proof {
                    lemma_offset_step(o, j as int);
                }
                self.files.set(j, newf);
                proof {
                    assert forall|j2: int, i: int|
                        0 <= j2 < o.len() && 0 <= i < o[j2].len() implies (
                        #[trigger] self.files@[j2]@[i]) == (
                            if start <= offset_of(o, j2) + i < start + d + cnt {
                                data@[offset_of(o, j2) + i - start]
                            } else {
                                o[j2][i]
                            }
                        ) by {
                        if j2 < j as int {
                            lemma_offset_step(o, j2);
                            lemma_offset_mono(o, j2 + 1, j as int);
                            assert(self.files@[j2] == prefiles[j2]);
                        } else if j2 > j as int {
                            lemma_offset_step(o, j as int);
                            lemma_offset_mono(o, j as int + 1, j2);
                            assert(self.files@[j2] == prefiles[j2]);
                        } else {
                            assert(self.files@[j2]@ == newf@);
                            assert(prefiles[j2]@[i] == (
                                if start <= offset_of(o, j2) + i < start + d {
                                    data@[offset_of(o, j2) + i - start]
                                } else {
                                    o[j2][i]
                                }
                            ));
                        }
                    }
                }
                d = d + cnt;
                pos = pos + cnt;
            }
        }
        proof {
            let cur = store_view(*self);
            assert forall|j2: int| 0 <= j2 < o.len() implies #[trigger] cur[j2].len()
                == o[j2].len() by {
                assert(cur[j2] == self.files@[j2]@);
            }
            lemma_total_matches_same(cur, o);
            assert forall|p: int| 0 <= p < total_len(o) implies #[trigger] flat_byte(cur, p)
                == (
                    if start <= p < start + data@.len() {
                        data@[p - start]
                    } else {
                        flat_byte(o, p)
                    }
                ) by {
                lemma_flat_position(o, p);
                let j2 = flat_file_of(o, p);
                lemma_offset_same(cur, o, j2);
                lemma_flat_byte_at(cur, j2, p - offset_of(o, j2));
                lemma_flat_byte_at(o, j2, p - offset_of(o, j2));
                assert(cur[j2] == self.files@[j2]@);
            }
        }
    }
}

/// Stores with equal file lengths have equal totals and offsets.
pub proof fn lemma_total_matches_same(a: Seq<Seq<u8>>, b: Seq<Seq<u8>>)
    requires
        a.len() == b.len(),
        forall|j: int| 0 <= j < a.len() ==> #[trigger] a[j].len() == b[j].len(),
    ensures
        total_len(a) == total_len(b),
    decreases a.len(),
{
    if a.len() > 0 {
        assert forall|j: int| 0 <= j < a.skip(1).len() implies #[trigger] a.skip(1)[j].len()
            == b.skip(1)[j].len() by {
            assert(a.skip(1)[j] == a[j + 1]);
            assert(b.skip(1)[j] == b[j + 1]);
        }
        lemma_total_matches_same(a.skip(1), b.skip(1));
    }
}

pub proof fn lemma_offset_same(a: Seq<Seq<u8>>, b: Seq<Seq<u8>>, j: int)
    requires
        a.len() == b.len(),
        forall|j2: int| 0 <= j2 < a.len() ==> #[trigger] a[j2].len() == b[j2].len(),
        0 <= j <= a.len(),
    ensures
        offset_of(a, j) == offset_of(b, j),
{
    assert forall|j2: int| 0 <= j2 < a.take(j).len() implies #[trigger] a.take(j)[j2].len()
        == b.take(j)[j2].len() by {
        assert(a.take(j)[j2] == a[j2]);
        assert(b.take(j)[j2] == b[j2]);
    }
    lemma_total_matches_same(a.take(j), b.take(j));
}

/// The index of the file that holds position `p` of the concatenation.
pub open spec fn flat_file_of(files: Seq<Seq<u8>>, p: int) -> int
    decreases files.len(),
{
    if files.len() == 0 {
        0
    } else if p < files[0].len() {
        0
    } else {
        1 + flat_file_of(files.skip(1), p - files[0].len())
    }
}

/// Every position of the concatenation lies in exactly one file.
pub proof fn lemma_flat_position(files: Seq<Seq<u8>>, p: int)
    requires
        0 <= p < total_len(files),
    ensures
        0 <= flat_file_of(files, p) < files.len(),
        offset_of(files, flat_file_of(files, p)) <= p,
        p - offset_of(files, flat_file_of(files, p)) < files[flat_file_of(files, p)].len(),
    decreases files.len(),
{
    if files.len() > 0 {
        assert(files.take(0) =~= Seq::<Seq<u8>>::empty());
        if p < files[0].len() {
        } else {
            lemma_flat_position(files.skip(1), p - files[0].len());
            let j = flat_file_of(files, p);
            assert(files.take(j) =~= seq![files[0]] + files.skip(1).take(j - 1));
            assert((seq![files[0]] + files.skip(1).take(j - 1)).skip(1) =~= files.skip(
                1,
            ).take(j - 1));
            assert(files.skip(1)[j - 1] == files[j]);
        }
    }
}

impl FileStore {
    /// The `len` bytes of the concatenation that start at `start`.
    pub fn read_range(&self, start: usize, len: usize) -> (r: Vec<u8>)
        requires
            self.wf(),
            start + len <= total_len(store_view(*self)),
        ensures
            r@ == store_read(store_view(*self), start as int, len as int),
    {
        let ghost v = store_view(*self);
        let nfiles = self.files.len();
        let mut j: usize = 0;
        let mut pos: usize = start;
        proof {
            assert(v.take(0) =~= Seq::<Seq<u8>>::empty());
        }
        while j < nfiles && pos >= self.files[j].len()
            invariant
                j <= nfiles,
                nfiles == v.len(),
                v == store_view(*self),
                offset_of(v, j as int) == start - pos,
            decreases nfiles - j,
        {
            proof {
                lemma_offset_step(v, j as int);
            }
            pos = pos - self.files[j].len();
            j = j + 1;
        }
        proof {
            lemma_total_len_nonneg(v);
            if j == nfiles {
                assert(v.take(nfiles as int) =~= v);
            }
        }
        let mut r: Vec<u8> = Vec::new();
        let mut d: usize = 0;
        while d < len
            invariant
                j <= nfiles,
                nfiles == v.len(),
                v == store_view(*self),
                self.wf(),
                d <= len,
                start + len <= total_len(v),
                offset_of(v, j as int) == start + d - pos,
                j < nfiles ==> pos <= v[j as int].len(),
                j == nfiles ==> d == len,
                r@.len() == d,
                forall|i: int| 0 <= i < d ==> #[trigger] r@[i] == flat_byte(v, start + i),
            decreases len - d, nfiles - j,
        {
            let flen = self.files[j].len();
            if pos >= flen {
                proof {
                    lemma_offset_step(v, j as int);
                    if j + 1 == nfiles {
                        assert(v.take(nfiles as int) =~= v);
                    }
                }
                j = j + 1;
                pos = 0;
            } else {
                let b = self.files[j][pos];
                proof {
                    lemma_flat_byte_at(v, j as int, pos as int);
                }
                r.push(b);
                d = d + 1;
                pos = pos + 1;
            }
        }
        proof {
            assert(r@ =~= store_read(v, start as int, len as int));
        }
        r
    }
}

impl FileStore {
    /// Write one subpiece at its place in the piece layout.
    pub fn write_subpiece(&mut self, index: usize, begin: usize, piece_len: usize, data: &Vec<u8>)
        requires
            old(self).wf(),
            index * piece_len + begin + data@.len() <= total_len(store_view(*old(self))),
        ensures
            final(self).wf(),
            store_view(*final(self)).len() == store_view(*old(self)).len(),
            forall|j: int| 0 <= j < store_view(*old(self)).len()
                ==> #[trigger] store_view(*final(self))[j].len() == store_view(
                    *old(self),
                )[j].len(),
            total_len(store_view(*final(self))) == total_len(store_view(*old(self))),
            forall|p: int| 0 <= p < total_len(store_view(*old(self)))
                ==> #[trigger] flat_byte(store_view(*final(self)), p) == (
                    if index * piece_len + begin <= p < index * piece_len + begin
                        + data@.len() {
                        data@[p - (index * piece_len + begin)]
                    } else {
                        flat_byte(store_view(*old(self)), p)
                    }
                ),
    {
        proof {
            lemma_total_len_nonneg(store_view(*self));
        }
        let start = index * piece_len + begin;
        self.write_range(start, data);
    }

    /// Read one subpiece; a request past the end of the payload comes back
    /// empty, and the final subpiece of the payload comes back truncated.
    pub fn read_subpiece(&self, index: usize, begin: usize, piece_len: usize) -> (r: Vec<u8>)
        requires
            self.wf(),
            index * piece_len + begin <= usize::MAX,
        ensures
            ({
                let start = index * piece_len + begin;
                let total = total_len(store_view(*self));
                if start >= total {
                    r@ == Seq::<u8>::empty()
                } else if total - start < crate::msg::SUBPIECE_LEN {
                    r@ == store_read(store_view(*self), start, total - start)
                } else {
                    r@ == store_read(store_view(*self), start, crate::msg::SUBPIECE_LEN as int)
                }
            }),
    {
        proof {
            lemma_total_len_nonneg(store_view(*self));
        }
        let start = index * piece_len + begin;
        let total = self.total_length();
        if start >= total {
            let r: Vec<u8> = Vec::new();
            proof {
                assert(r@ =~= Seq::<u8>::empty());
            }
            r
        } else {
            let len = if total - start < crate::msg::SUBPIECE_LEN as usize {
                total - start
            } else {
                crate::msg::SUBPIECE_LEN as usize
            };
            self.read_range(start, len)
        }
    }
}

/// The sum of the byte counts of a span list.
pub open spec fn spans_total(r: Seq<(usize, usize, usize)>) -> int
    decreases r.len(),
{
    if r.len() == 0 {
        0
    } else {
        r[0].2 + spans_total(r.skip(1))
    }
}

pub proof fn lemma_spans_total_push(r: Seq<(usize, usize, usize)>, x: (usize, usize, usize))
    ensures
        spans_total(r.push(x)) == spans_total(r) + x.2,
    decreases r.len(),
{
    if r.len() == 0 {
        assert(r.push(x)[0] == x);
        assert(r.push(x).skip(1) =~= Seq::<(usize, usize, usize)>::empty());
        assert(spans_total(r.push(x).skip(1)) == 0);
    } else {
        assert(r.push(x)[0] == r[0]);
        assert(r.push(x).skip(1) =~= r.skip(1).push(x));
        lemma_spans_total_push(r.skip(1), x);
    }
}

/// Where file `j` begins in the concatenation, from the declared lengths.
pub open spec fn len_offset(lengths: Seq<usize>, j: int) -> int {
    total_of(lengths.take(j))
}

pub proof fn lemma_len_offset_step(lengths: Seq<usize>, j: int)
    requires
        0 <= j < lengths.len(),
    ensures
        len_offset(lengths, j + 1) == len_offset(lengths, j) + lengths[j],
    decreases j,
{
    if j == 0 {
        assert(lengths.take(0) =~= Seq::<usize>::empty());
        assert(lengths.take(1) =~= seq![lengths[0]]);
        assert(lengths.take(1).skip(1) =~= Seq::<usize>::empty());
    } else {
        lemma_len_offset_step(lengths.skip(1), j - 1);
        assert(lengths.take(j) =~= seq![lengths[0]] + lengths.skip(1).take(j - 1));
        assert(lengths.take(j + 1) =~= seq![lengths[0]] + lengths.skip(1).take(j));
        assert((seq![lengths[0]] + lengths.skip(1).take(j - 1)).skip(1) =~= lengths.skip(
            1,
        ).take(j - 1));
        assert((seq![lengths[0]] + lengths.skip(1).take(j)).skip(1) =~= lengths.skip(
            1,
        ).take(j));
        assert(lengths.skip(1)[j - 1] == lengths[j]);
    }
}

/// A well-formed decomposition of `[start, end)` into per-file spans
/// `(file, offset, count)`: files in declaration order, every span inside
/// its file, counts positive, spans laid out gaplessly from `start`.
pub open spec fn spans_wf(
    r: Seq<(usize, usize, usize)>,
    lengths: Seq<usize>,
    start: int,
    end: int,
) -> bool {
    &&& forall|k: int| 0 <= k < r.len() ==> (#[trigger] r[k]).0 < lengths.len() && r[k].2 > 0
        && r[k].1 + r[k].2 <= lengths[r[k].0 as int]
    &&& forall|k: int| 0 <= k < r.len() - 1 ==> (#[trigger] r[k]).0 < r[k + 1].0
    &&& forall|k: int| 0 <= k < r.len() ==> len_offset(lengths, (#[trigger] r[k]).0 as int)
        + r[k].1 == start + spans_total(r.take(k))
    &&& spans_total(r) == end - start
}

/// The spans a byte range touches: one per overlapped file, in declaration
/// order. A range that spans `k` files yields exactly `k` spans, so the
/// caller locks exactly those files, in order.
pub fn spans_for_range(lengths: &Vec<usize>, start: usize, end: usize) -> (r: Vec<
    (usize, usize, usize),
>)
    requires
        start <= end,
        end <= total_of(lengths@),
        total_of(lengths@) <= usize::MAX,
    ensures
        spans_wf(r@, lengths@, start as int, end as int),
{
    let ghost lens = lengths@;
    let nfiles = lengths.len();
    let mut r: Vec<(usize, usize, usize)> = Vec::new();
    let mut j: usize = 0;
    let mut pos: usize = start;
    proof {
        assert(lens.take(0) =~= Seq::<usize>::empty());
    }
    while j < nfiles && pos >= lengths[j]
        invariant
            j <= nfiles,
            nfiles == lens.len(),
            lens == lengths@,
            len_offset(lens, j as int) == start - pos,
        decreases nfiles - j,
    {
        proof {
            lemma_len_offset_step(lens, j as int);
        }
        pos = pos - lengths[j];
        j = j + 1;
    }
    let mut d: usize = 0;
    let count = end - start;
    proof {
        lemma_total_nonneg(lens);
        if j == nfiles {
            assert(lens.take(nfiles as int) =~= lens);
        }
        assert(r@.take(0) =~= Seq::<(usize, usize, usize)>::empty());
    }
    while d < count
        invariant
            j <= nfiles,
            nfiles == lens.len(),
            lens == lengths@,
            d <= count,
            count == end - start,
            end <= total_of(lens),
            len_offset(lens, j as int) == start + d - pos,
            j < nfiles ==> pos <= lens[j as int],
            j == nfiles ==> d == count,
            forall|k: int| 0 <= k < r@.len() - 1 ==> (#[trigger] r@[k]).0 < j,
            r@.len() > 0 ==> r@[r@.len() - 1].0 <= j,
            (r@.len() > 0 && r@[r@.len() - 1].0 == j && d < count) ==> pos >= lens[j as int],
            forall|k: int| 0 <= k < r@.len() ==> (#[trigger] r@[k]).0 < lens.len()
                && r@[k].2 > 0 && r@[k].1 + r@[k].2 <= lens[r@[k].0 as int],
            forall|k: int| 0 <= k < r@.len() - 1 ==> (#[trigger] r@[k]).0 < r@[k + 1].0,
            forall|k: int| 0 <= k < r@.len() ==> len_offset(lens, (#[trigger] r@[k]).0 as int)
                + r@[k].1 == start + spans_total(r@.take(k)),
            spans_total(r@) == d,
        decreases count - d, nfiles - j,
    {
        let flen = lengths[j];
        if pos >= flen {
            proof {
                lemma_len_offset_step(lens, j as int);
                if j + 1 == nfiles {
                    assert(lens.take(nfiles as int) =~= lens);
                }
            }
            j = j + 1;
            pos = 0;
        } else {
            let cnt = if flen - pos < count - d {
                flen - pos
            } else {
                count - d
            };
            proof {
                let x = (j, pos, cnt);
                lemma_spans_total_push(r@, x);
                assert(r@.push(x).take(r@.len() as int) =~= r@);
                assert forall|k: int| 0 <= k < r@.push(x).len() implies len_offset(
                    lens,
                    (#[trigger] r@.push(x)[k]).0 as int,
                ) + r@.push(x)[k].1 == start + spans_total(r@.push(x).take(k)) by {
                    if k < r@.len() {
                        assert(r@.push(x).take(k) =~= r@.take(k));
                        assert(r@.push(x)[k] == r@[k]);
                    } else {
                        assert(r@.push(x).take(k) =~= r@);
                    }
                }
                lemma_len_offset_step(lens, j as int);
            }
            r.push((j, pos, cnt));
            d = d + cnt;
            pos = pos + cnt;
        }
    }
    r
}

pub proof fn lemma_total_nonneg(lengths: Seq<usize>)
    ensures
        total_of(lengths) >= 0,
    decreases lengths.len(),
{
    if lengths.len() > 0 {
        lemma_total_nonneg(lengths.skip(1));
    }
}

/// Two stores with the same file lengths and the same byte at every
/// position of the concatenation are the same store.
pub proof fn lemma_store_bytes_eq(a: Seq<Seq<u8>>, b: Seq<Seq<u8>>)
    requires
        a.len() == b.len(),
        forall|j: int| 0 <= j < a.len() ==> (#[trigger] a[j]).len() == b[j].len(),
        forall|p: int| 0 <= p < total_len(a) ==> #[trigger] flat_byte(a, p) == flat_byte(
            b,
            p,
        ),
    ensures
        a =~~= b,
{
    lemma_total_matches_same(a, b);
    assert forall|j: int, idx: int|
        0 <= j < a.len() && 0 <= idx < a[j].len() implies #[trigger] a[j][idx]
        == b[j][idx] by {
        lemma_offset_bounds(a, j);
        lemma_offset_within(a, j);
        lemma_flat_byte_at(a, j, idx);
        lemma_flat_byte_at(b, j, idx);
        lemma_offset_same(a, b, j);
    }
    assert(a =~~= b);
}

/// Reading back a freshly written range yields the written bytes: the law
/// that writes and reads over the file mapping are inverse on any range of
/// the concatenation.
pub proof fn lemma_read_of_write(
    pre: Seq<Seq<u8>>,
    post: Seq<Seq<u8>>,
    start: int,
    data: Seq<u8>,
)
    requires
        post.len() == pre.len(),
        forall|j: int| 0 <= j < pre.len() ==> #[trigger] post[j].len() == pre[j].len(),
        0 <= start,
        start + data.len() <= total_len(pre),
        forall|p: int| 0 <= p < total_len(pre) ==> #[trigger] flat_byte(post, p) == (
            if start <= p < start + data.len() {
                data[p - start]
            } else {
                flat_byte(pre, p)
            }
        ),
    ensures
        store_read(post, start, data.len() as int) == data,
{
    assert(store_read(post, start, data.len() as int) =~= data);
}

} // verus!
