//! The reassembly queue: buffers ranked results and releases them to the
//! output strictly in rank order, regardless of arrival order.

use vstd::prelude::*;
use crate::fault::Fault;

verus! {

/// An owned buffer of post-codec bytes paired with the rank of the block it
/// came from. Created by a worker, consumed exactly once by the queue.
pub struct WriteBuffer {
    pub rank: usize,
    pub data: Vec<u8>,
}

/// The ordering key of a buffered result: its rank.
pub fn wb_sort(x: &WriteBuffer) -> (r: usize)
    ensures
        r == x.rank,
{
    x.rank
}

/// Whether some element of `s` carries rank `r`.
pub open spec fn has_rank(s: Seq<WriteBuffer>, r: int) -> bool {
    exists|j: int| 0 <= j < s.len() && s[j].rank == r
}

/// The index in `s` of an element with rank `r`; unambiguous when ranks are
/// distinct.
pub open spec fn rank_index(s: Seq<WriteBuffer>, r: int) -> int {
    choose|j: int| 0 <= j < s.len() && s[j].rank == r
}

/// The bytes carried at rank `r`.
pub open spec fn data_at_rank(s: Seq<WriteBuffer>, r: int) -> Seq<u8> {
    s[rank_index(s, r)].data@
}

/// No two elements of `s` share a rank.
pub open spec fn distinct_ranks(s: Seq<WriteBuffer>) -> bool {
    forall|i: int, j: int| 0 <= i < j < s.len() ==> (#[trigger] s[i]).rank != (#[trigger] s[j]).rank
}

/// Holds a collection of ranked result buffers awaiting their turn, together
/// with the cursor of the next rank owed to the output.
pub struct WriteItems {
    next: usize,
    data: Vec<WriteBuffer>,
}

impl WriteItems {
    /// The rank the output expects next.
    pub closed spec fn cursor(self) -> int {
        self.next as int
    }

    /// Whether rank `r` is buffered.
    pub closed spec fn has(self, r: int) -> bool {
        has_rank(self.data@, r)
    }

    /// The bytes buffered at rank `r`.
    pub closed spec fn at(self, r: int) -> Seq<u8> {
        data_at_rank(self.data@, r)
    }

    /// How many results are buffered.
    pub closed spec fn count(self) -> int {
        self.data@.len() as int
    }

    /// The buffered state as a mapping from rank to result bytes.
    pub open spec fn buffered(self) -> Map<int, Seq<u8>> {
        Map::new(|r: int| self.has(r), |r: int| self.at(r))
    }

    /// Well-formedness: ranks are unique, none is below the cursor, and every
    /// rank leaves room for the cursor to pass it.
    pub closed spec fn inv(self) -> bool {
        &&& distinct_ranks(self.data@)
        &&& forall|i: int|
            0 <= i < self.data@.len() ==> (#[trigger] self.data@[i]).rank >= self.next
        &&& forall|i: int|
            0 <= i < self.data@.len() ==> (#[trigger] self.data@[i]).rank < usize::MAX
    }

    /// Create an empty queue whose cursor starts at rank 0.
    pub fn new(size: usize) -> (q: WriteItems)
        ensures
            q.inv(),
            q.cursor() == 0,
            q.count() == 0,
            forall|r: int| !q.has(r),
    {
        WriteItems { next: 0, data: Vec::with_capacity(size) }
    }

    /// Submit one ranked result.
    ///
    /// A rank below the cursor was already released: that submission is an
    /// ordering violation. A rank already buffered is a duplicate. Any other
    /// rank is inserted; the cursor does not move.
    #[verifier::loop_isolation(false)]
    pub fn write_item(&mut self, item: WriteBuffer) -> (r: Result<(), Fault>)
        requires
            old(self).inv(),
            item.rank < usize::MAX,
        ensures
            final(self).inv(),
            final(self).cursor() == old(self).cursor(),
            (item.rank as int) < old(self).cursor() ==> r == Err::<(), Fault>(
                Fault::OrderingViolation,
            ) && *final(self) == *old(self),
            (item.rank as int) >= old(self).cursor() && old(self).has(item.rank as int) ==> r
                == Err::<(), Fault>(Fault::DuplicateRank) && *final(self) == *old(self),
            (item.rank as int) >= old(self).cursor() && !old(self).has(item.rank as int) ==> {
                &&& r == Ok::<(), Fault>(())
                &&& final(self).count() == old(self).count() + 1
                &&& final(self).has(item.rank as int)
                &&& final(self).at(item.rank as int) == item.data@
                &&& forall|q: int|
                    q != item.rank as int ==> final(self).has(q) == old(self).has(q)
                &&& forall|q: int|
                    q != item.rank as int && old(self).has(q) ==> final(self).at(q) == old(
                        self,
                    ).at(q)
            },
    {
        if item.rank < self.next {
            return Err(Fault::OrderingViolation);
        }
        let ghost rk = item.rank as int;
        let ghost s0 = old(self).data@;
        let mut j: usize = 0;
        while j < self.data.len()
            invariant
                *self == *old(self),
                j <= s0.len(),
                forall|k: int| 0 <= k < j ==> (#[trigger] s0[k]).rank != item.rank,
            decreases s0.len() - j,
        {
            if self.data[j].rank == item.rank {
                proof {
                    assert(has_rank(s0, rk));
                }
                return Err(Fault::DuplicateRank);
            }
            j += 1;
        }
        proof {
            assert(!has_rank(s0, rk));
        }
        self.data.push(item);
        proof {
            let s1 = self.data@;
            assert(s1 == s0.push(item));
            assert(s1[s0.len() as int] == item);
            assert(s1[s0.len() as int].rank == rk);
            assert forall|k: int| 0 <= k < s1.len() && (#[trigger] s1[k]).rank == rk implies k
                == s0.len() by {
                if k < s0.len() {
                    assert(s0[k].rank == rk);
                }
            }
            assert(has_rank(s1, rk));
            let w = rank_index(s1, rk);
            assert(0 <= w < s1.len() && s1[w].rank == rk);
            assert(w == s0.len());
            assert forall|a: int, b: int| 0 <= a < b < s1.len() implies (#[trigger] s1[a]).rank
                != (#[trigger] s1[b]).rank by {
                if b < s0.len() {
                    assert(distinct_ranks(s0));
                } else {
                    assert(s1[b] == item);
                    assert(s0[a].rank != item.rank);
                }
            }
            assert forall|q: int| q != rk implies has_rank(s1, q) == has_rank(s0, q) by {
                if has_rank(s1, q) {
                    let w = choose|w: int| 0 <= w < s1.len() && s1[w].rank == q;
                    assert(w < s0.len() && s0[w].rank == q);
                }
                if has_rank(s0, q) {
                    let w = choose|w: int| 0 <= w < s0.len() && s0[w].rank == q;
                    assert(s1[w].rank == q);
                }
            }
            assert forall|q: int| q != rk && has_rank(s0, q) implies data_at_rank(s1, q)
                == data_at_rank(s0, q) by {
                let w1 = rank_index(s1, q);
                assert(0 <= w1 < s1.len() && s1[w1].rank == q);
                assert(w1 < s0.len());
                let w0 = rank_index(s0, q);
                assert(0 <= w0 < s0.len() && s0[w0].rank == q);
                if w0 != w1 {
                    assert(distinct_ranks(s0));
                    assert(false);
                }
            }
        }
        Ok(())
    }

    /// Release the result at the cursor, if it has arrived.
    ///
    /// Returns the buffer whose rank equals the cursor and advances the cursor
    /// past it; returns `None`, leaving the queue unchanged, while that rank
    /// is still outstanding.
    #[verifier::loop_isolation(false)]
    pub fn read_item(&mut self) -> (r: Option<WriteBuffer>)
        requires
            old(self).inv(),
        ensures
            final(self).inv(),
            old(self).has(old(self).cursor()) ==> {
                &&& r is Some
                &&& r->Some_0.rank as int == old(self).cursor()
                &&& r->Some_0.data@ == old(self).at(old(self).cursor())
                &&& final(self).cursor() == old(self).cursor() + 1
                &&& final(self).count() == old(self).count() - 1
                &&& !final(self).has(old(self).cursor())
                &&& forall|q: int|
                    q != old(self).cursor() ==> final(self).has(q) == old(self).has(q)
                &&& forall|q: int|
                    q != old(self).cursor() && old(self).has(q) ==> final(self).at(q) == old(
                        self,
                    ).at(q)
            },
            !old(self).has(old(self).cursor()) ==> r is None && *final(self) == *old(self),
    {
        let ghost c = old(self).next as int;
        let ghost s0 = old(self).data@;
        let mut j: usize = 0;
        while j < self.data.len()
            invariant
                *self == *old(self),
                j <= s0.len(),
                forall|k: int| 0 <= k < j ==> (#[trigger] s0[k]).rank != old(self).next,
            decreases s0.len() - j,
        {
            if self.data[j].rank == self.next {
                proof {
                    assert(s0[j as int].rank == c);
                    assert(has_rank(s0, c));
                    assert forall|w: int| 0 <= w < s0.len() && (#[trigger] s0[w]).rank == c
                        implies w == j by {
                        if w != j {
                            assert(distinct_ranks(s0));
                        }
                    }
                    let w0 = rank_index(s0, c);
                    assert(0 <= w0 < s0.len() && s0[w0].rank == c);
                    assert(w0 == j);
                }
                let val = self.data.remove(j);
                self.next = self.next + 1;
                proof {
                    let s1 = self.data@;
                    assert forall|q: int| q != c implies has_rank(s1, q) == has_rank(s0, q) by {
                        if has_rank(s1, q) {
                            let w = choose|w: int| 0 <= w < s1.len() && s1[w].rank == q;
                            if w < j {
                                assert(s0[w].rank == q);
                            } else {
                                assert(s0[w + 1].rank == q);
                            }
                        }
                        if has_rank(s0, q) {
                            let w = choose|w: int| 0 <= w < s0.len() && s0[w].rank == q;
                            assert(w != j);
                            if w < j {
                                assert(s1[w].rank == q);
                            } else {
                                assert(s1[w - 1].rank == q);
                            }
                        }
                    }
                    assert forall|q: int| q != c && has_rank(s0, q) implies data_at_rank(s1, q)
                        == data_at_rank(s0, q) by {
                        assert(has_rank(s1, q));
                        let w1 = rank_index(s1, q);
                        assert(0 <= w1 < s1.len() && s1[w1].rank == q);
                        let pre = if w1 < j {
                            w1
                        } else {
                            w1 + 1
                        };
                        assert(s0[pre].rank == q);
                        let w0 = rank_index(s0, q);
                        assert(0 <= w0 < s0.len() && s0[w0].rank == q);
                        if w0 != pre {
                            assert(distinct_ranks(s0));
                            assert(false);
                        }
                        assert(s1[w1].data@ == s0[w0].data@);
                    }
                    assert forall|w: int| 0 <= w < s1.len() implies (#[trigger] s1[w]).rank > c
                        && s1[w].rank < usize::MAX by {
                        let pre = if w < j {
                            w
                        } else {
                            w + 1
                        };
                        assert(s1[w] == s0[pre]);
                        assert(s0[pre].rank >= c && s0[pre].rank < usize::MAX);
                        if s0[pre].rank == c {
                            assert(pre == j);
                            assert(false);
                        }
                    }
                    assert forall|a: int, b: int| 0 <= a < b < s1.len() implies (
                    #[trigger] s1[a]).rank != (#[trigger] s1[b]).rank by {
                        let pa = if a < j {
                            a
                        } else {
                            a + 1
                        };
                        let pb = if b < j {
                            b
                        } else {
                            b + 1
                        };
                        assert(s1[a] == s0[pa] && s1[b] == s0[pb]);
                        assert(pa < pb);
                        assert(distinct_ranks(s0));
                    }
                    assert(!has_rank(s1, c));
                }
                return Some(val);
            }
            j += 1;
        }
        proof {
            assert(!has_rank(s0, c));
        }
        None
    }
}

/// A complete run of results: each of the ranks `0 .. n-1` appears exactly
/// once in `s`, in whatever order the workers completed.
pub open spec fn is_run(s: Seq<WriteBuffer>, n: int) -> bool {
    &&& s.len() == n
    &&& distinct_ranks(s)
    &&& forall|i: int| 0 <= i < s.len() ==> (#[trigger] s[i]).rank < n
    &&& forall|r: int| 0 <= r < n ==> has_rank(s, r)
}

/// The concatenation of the buffers' bytes in the order of `s` itself.
pub open spec fn concat_data(s: Seq<WriteBuffer>) -> Seq<u8>
    decreases s.len(),
{
    if s.len() == 0 {
        Seq::empty()
    } else {
        concat_data(s.drop_last()) + s.last().data@
    }
}

/// The concatenation of the bytes held at ranks `0 .. n-1` of `s`, in
/// ascending rank order.
pub open spec fn rank_ordered_concat(s: Seq<WriteBuffer>, n: int) -> Seq<u8>
    decreases n,
{
    if n <= 0 {
        Seq::empty()
    } else {
        rank_ordered_concat(s, n - 1) + data_at_rank(s, n - 1)
    }
}

/// Order preservation: a drained sequence that releases rank `i` at position
/// `i` concatenates to the rank-ordered concatenation of the submitted
/// buffers, regardless of the order in which they were submitted.
pub proof fn lemma_order_preservation(items: Seq<WriteBuffer>, drained: Seq<WriteBuffer>)
    requires
        forall|i: int|
            0 <= i < drained.len() ==> (#[trigger] drained[i]).rank == i && drained[i].data@
                == data_at_rank(items, i),
    ensures
        concat_data(drained) == rank_ordered_concat(items, drained.len() as int),
    decreases drained.len(),
{
    if drained.len() > 0 {
        let pre = drained.drop_last();
        assert(forall|i: int| 0 <= i < pre.len() ==> pre[i] == drained[i]);
        lemma_order_preservation(items, pre);
    }
}

/// Submission order is not observable at the output: two complete runs that
/// carry the same bytes at every rank drain to the same output bytes,
/// however differently their workers interleaved.
pub proof fn lemma_submission_order_irrelevant(a: Seq<WriteBuffer>, b: Seq<WriteBuffer>, n: int)
    requires
        forall|r: int| 0 <= r < n ==> data_at_rank(a, r) == data_at_rank(b, r),
    ensures
        rank_ordered_concat(a, n) == rank_ordered_concat(b, n),
    decreases n,
{
    if n > 0 {
        lemma_submission_order_irrelevant(a, b, n - 1);
    }
}

/// Run a whole batch of ranked results through a fresh reassembly queue:
/// submit every buffer in the order given, then drain until the queue runs
/// dry.
///
/// For any permutation of the ranks `0 .. n-1`, the drained sequence releases
/// every rank exactly once, in ascending order, and its bytes concatenate to
/// the rank-ordered concatenation; the submission order is not observable.
#[verifier::loop_isolation(false)]
pub fn reassemble(items: Vec<WriteBuffer>) -> (drained: Vec<WriteBuffer>)
    requires
        is_run(items@, items@.len() as int),
    ensures
        drained@.len() == items@.len(),
        forall|i: int|
            0 <= i < drained@.len() ==> (#[trigger] drained@[i]).rank == i && drained@[i].data@
                == data_at_rank(items@, i),
        concat_data(drained@) == rank_ordered_concat(items@, items@.len() as int),
{
    let ghost items0 = items@;
    let ghost n = items@.len() as int;
    let total = items.len();
    let mut items = items;
    let mut q = WriteItems::new(total);
    proof {
        assert(items0.take(n) =~= items0);
    }
    while items.len() > 0
        invariant
            q.inv(),
            q.cursor() == 0,
            items@.len() <= items0.len(),
            items@ == items0.take(items@.len() as int),
            forall|jj: int|
                items@.len() <= jj < n ==> q.has((#[trigger] items0[jj]).rank as int) && q.at(
                    items0[jj].rank as int,
                ) == items0[jj].data@,
            forall|r: int|
                #[trigger] q.has(r) ==> exists|jj: int|
                    items@.len() <= jj < n && (#[trigger] items0[jj]).rank == r,
        decreases items@.len(),
    {
        let ghost m = items@.len() as int;
        let b = items.pop().unwrap();
        proof {
            assert(b == items0[m - 1]);
            assert(items@ =~= items0.take(m - 1));
            assert(b.rank < n);
            if q.has(b.rank as int) {
                let jj = choose|jj: int|
                    m <= jj < n && (#[trigger] items0[jj]).rank == b.rank as int;
                assert(distinct_ranks(items0));
                assert(false);
            }
        }
        match q.write_item(b) {
            Ok(()) => (),
            Err(_) => vstd::pervasive::unreached(),
        }
        proof {
            assert forall|jj: int| m - 1 <= jj < n implies q.has(
                (#[trigger] items0[jj]).rank as int,
            ) && q.at(items0[jj].rank as int) == items0[jj].data@ by {
                if jj > m - 1 {
                    assert(items0[jj].rank != b.rank) by {
                        assert(distinct_ranks(items0));
                    }
                }
            }
        }
    }
    let mut drained: Vec<WriteBuffer> = Vec::new();
    proof {
        assert forall|r: int| 0 <= r < n implies q.has(r) && q.at(r) == data_at_rank(
            items0,
            r,
        ) by {
            assert(has_rank(items0, r));
            let jj = rank_index(items0, r);
            assert(0 <= jj < items0.len() && items0[jj].rank == r);
            assert(q.has(items0[jj].rank as int) && q.at(items0[jj].rank as int)
                == items0[jj].data@);
        }
        assert forall|r: int| #[trigger] q.has(r) implies 0 <= r < n by {
            let jj = choose|jj: int| 0 <= jj < n && (#[trigger] items0[jj]).rank == r;
            assert(items0[jj].rank < n);
        }
    }
    while drained.len() < total
        invariant
            q.inv(),
            q.cursor() == drained@.len(),
            drained@.len() <= n,
            forall|i: int|
                0 <= i < drained@.len() ==> (#[trigger] drained@[i]).rank == i
                    && drained@[i].data@ == data_at_rank(items0, i),
            forall|r: int| #[trigger] q.has(r) <==> drained@.len() <= r < n,
            forall|r: int|
                drained@.len() <= r < n ==> #[trigger] q.at(r) == data_at_rank(items0, r),
        decreases n - drained@.len(),
    {
        let ghost c = drained@.len() as int;
        match q.read_item() {
            Some(b) => {
                drained.push(b);
            },
            None => {
                proof {
                    assert(q.has(c));
                    assert(false);
                }
            },
        }
    }
    proof {
        lemma_order_preservation(items0, drained@);
    }
    drained
}

/// Concatenate the bytes of `bufs` in the order given.
#[verifier::loop_isolation(false)]
pub fn concat_buffers(bufs: &Vec<WriteBuffer>) -> (out: Vec<u8>)
    ensures
        out@ == concat_data(bufs@),
{
    let mut out: Vec<u8> = Vec::new();
    let mut i: usize = 0;
    while i < bufs.len()
        invariant
            i <= bufs@.len(),
            out@ == concat_data(bufs@.take(i as int)),
        decreases bufs@.len() - i,
    {
        let mut k: usize = 0;
        while k < bufs[i].data.len()
            invariant
                i < bufs@.len(),
                k <= bufs@[i as int].data@.len(),
                out@ == concat_data(bufs@.take(i as int)) + bufs@[i as int].data@.take(k as int),
            decreases bufs@[i as int].data@.len() - k,
        {
            let byte = bufs[i].data[k];
            out.push(byte);
            proof {
                assert(bufs@[i as int].data@.take(k + 1 as int) =~= bufs@[i as int].data@.take(
                    k as int,
                ).push(byte));
            }
            k += 1;
        }
        proof {
            assert(bufs@.take(i + 1 as int).drop_last() =~= bufs@.take(i as int));
            assert(bufs@.take(i + 1 as int).last() == bufs@[i as int]);
            assert(bufs@[i as int].data@.take(bufs@[i as int].data@.len() as int) =~= bufs@[
                i as int].data@);
        }
        i += 1;
    }
    proof {
        assert(bufs@.take(bufs@.len() as int) =~= bufs@);
    }
    out
}

} // verus!
