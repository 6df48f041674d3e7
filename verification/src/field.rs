//! Per-piece three-state map guiding the download: every piece is EMPTY,
//! IN_PROGRESS (claimed by exactly one fetcher) or COMPLETE (hashed and on
//! disk). All mutations preserve the three-state invariant `wf`.

use vstd::prelude::*;

verus! {

pub const EMPTY: u8 = 0;
pub const IN_PROGRESS: u8 = 1;
pub const COMPLETE: u8 = 2;

pub struct ByteField {
    pub arr: Vec<u8>,
}

/// True when some entry of `claimed` equals the piece index `j`.
pub open spec fn contains_index(claimed: Seq<usize>, j: int) -> bool {
    exists|k: int| 0 <= k < claimed.len() && #[trigger] claimed[k] as int == j
}

impl ByteField {
    /// Every entry is one of the three piece states.
    pub open spec fn wf(self) -> bool {
        forall|i: int|
            0 <= i < self.arr@.len() ==> (#[trigger] self.arr@[i] == EMPTY
                || self.arr@[i] == IN_PROGRESS || self.arr@[i] == COMPLETE)
    }

    /// A fresh field: one entry per piece, all EMPTY.
    pub fn new(num_pieces: usize) -> (r: ByteField)
        ensures
            r.wf(),
            r.arr@.len() == num_pieces,
            forall|i: int| 0 <= i < num_pieces ==> #[trigger] r.arr@[i] == EMPTY,
    {
        let mut arr: Vec<u8> = Vec::new();
        let mut k: usize = 0;
        while k < num_pieces
            invariant
                k <= num_pieces,
                arr@.len() == k,
                forall|i: int| 0 <= i < k ==> #[trigger] arr@[i] == EMPTY,
            decreases num_pieces - k,
        {
            arr.push(EMPTY);
            k = k + 1;
        }
        ByteField { arr }
    }

    /// True exactly when every piece is COMPLETE.
    pub fn if_full(&self) -> (r: bool)
        ensures
            r == (forall|i: int|
                0 <= i < self.arr@.len() ==> #[trigger] self.arr@[i] == COMPLETE),
    {
        let n = self.arr.len();
        let mut k: usize = 0;
        while k < n
            invariant
                k <= n,
                n == self.arr@.len(),
                forall|i: int| 0 <= i < k ==> #[trigger] self.arr@[i] == COMPLETE,
            decreases n - k,
        {
            if self.arr[k] != COMPLETE {
                return false;
            }
            k = k + 1;
        }
        true
    }

    /// The first EMPTY index, if any.
    pub fn get_empty(&self) -> (r: Option<usize>)
        ensures
            match r {
                Some(i) => i < self.arr@.len() && self.arr@[i as int] == EMPTY
                    && forall|j: int| 0 <= j < i ==> #[trigger] self.arr@[j] != EMPTY,
                None => forall|j: int|
                    0 <= j < self.arr@.len() ==> #[trigger] self.arr@[j] != EMPTY,
            },
    {
        let n = self.arr.len();
        let mut k: usize = 0;
        while k < n
            invariant
                k <= n,
                n == self.arr@.len(),
                forall|j: int| 0 <= j < k ==> #[trigger] self.arr@[j] != EMPTY,
            decreases n - k,
        {
            if self.arr[k] == EMPTY {
                return Some(k);
            }
            k = k + 1;
        }
        None
    }

    /// Claim the first EMPTY piece for a fetcher: it becomes IN_PROGRESS.
    pub fn claim_next(&mut self) -> (r: Option<usize>)
        requires
            old(self).wf(),
        ensures
            final(self).wf(),
            match r {
                Some(i) => i < old(self).arr@.len()
                    && old(self).arr@[i as int] == EMPTY
                    && (forall|j: int| 0 <= j < i ==> #[trigger] old(self).arr@[j] != EMPTY)
                    && final(self).arr@ == old(self).arr@.update(i as int, IN_PROGRESS),
                None => final(self).arr@ == old(self).arr@ && forall|j: int|
                    0 <= j < old(self).arr@.len() ==> #[trigger] old(self).arr@[j] != EMPTY,
            },
    {
        match self.get_empty() {
            Some(i) => {
                self.arr.set(i, IN_PROGRESS);
                Some(i)
            }
            None => None,
        }
    }

    /// Return a piece to EMPTY (a fetcher gave it up, or its hash failed).
    pub fn release(&mut self, index: usize)
        requires
            old(self).wf(),
            index < old(self).arr@.len(),
        ensures
            final(self).wf(),
            final(self).arr@ == old(self).arr@.update(index as int, EMPTY),
    {
        self.arr.set(index, EMPTY);
    }

    /// Mark a piece COMPLETE; only the hasher does this, after a verified write.
    pub fn complete(&mut self, index: usize)
        requires
            old(self).wf(),
            index < old(self).arr@.len(),
        ensures
            final(self).wf(),
            final(self).arr@ == old(self).arr@.update(index as int, COMPLETE),
    {
        self.arr.set(index, COMPLETE);
    }

    pub fn is_complete(&self, index: usize) -> (r: bool)
        requires
            index < self.arr@.len(),
        ensures
            r == (self.arr@[index as int] == COMPLETE),
    {
        self.arr[index] == COMPLETE
    }

    /// On session teardown every claimed piece still IN_PROGRESS reverts to
    /// EMPTY, so a dying fetcher never leaves work stuck in IN_PROGRESS.
    pub fn release_claimed(&mut self, claimed: &Vec<usize>)
        requires
            old(self).wf(),
            forall|k: int| 0 <= k < claimed@.len() ==> #[trigger] claimed@[k] < old(self).arr@.len(),
        ensures
            final(self).wf(),
            final(self).arr@.len() == old(self).arr@.len(),
            forall|j: int| 0 <= j < final(self).arr@.len() ==> #[trigger] final(self).arr@[j] == (
                if contains_index(claimed@, j) && old(self).arr@[j] == IN_PROGRESS {
                    EMPTY
                } else {
                    old(self).arr@[j]
                }
            ),
            forall|k: int|
                0 <= k < claimed@.len()
                    ==> #[trigger] final(self).arr@[claimed@[k] as int] != IN_PROGRESS,
    {
        let n = claimed.len();
        let mut k: usize = 0;
        while k < n
            invariant
                self.wf(),
                k <= n,
                n == claimed@.len(),
                self.arr@.len() == old(self).arr@.len(),
                forall|k2: int|
                    0 <= k2 < claimed@.len() ==> #[trigger] claimed@[k2] < old(self).arr@.len(),
                forall|j: int| 0 <= j < self.arr@.len() ==> #[trigger] self.arr@[j] == (
                    if contains_index(claimed@.take(k as int), j)
                        && old(self).arr@[j] == IN_PROGRESS {
                        EMPTY
                    } else {
                        old(self).arr@[j]
                    }
                ),
            decreases n - k,
        {
            let idx = claimed[k];
            if self.arr[idx] == IN_PROGRESS {
                self.arr.set(idx, EMPTY);
            }
            proof {
                let pre = claimed@.take(k as int);
                let post = claimed@.take(k as int + 1);
                assert forall|j: int| contains_index(post, j) implies
                    (contains_index(pre, j) || claimed@[k as int] as int == j) by {
                    let k2 = choose|k2: int|
                        0 <= k2 < post.len() && #[trigger] post[k2] as int == j;
                    if k2 < k as int {
                        assert(pre[k2] as int == j);
                    }
                };
                assert forall|j: int| (contains_index(pre, j) || claimed@[k as int] as int == j)
                    implies contains_index(post, j) by {
                    if contains_index(pre, j) {
                        let k2 = choose|k2: int|
                            0 <= k2 < pre.len() && #[trigger] pre[k2] as int == j;
                        assert(post[k2] as int == j);
                    } else {
                        assert(post[k as int] as int == j);
                    }
                };
            }
            k = k + 1;
        }
        proof {
            assert(claimed@.take(n as int) =~= claimed@);
        }
    }
}

} // verus!
