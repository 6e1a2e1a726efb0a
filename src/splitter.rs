use vstd::prelude::*;

verus! {

/// Decides from one byte whether a range may end just after it.
pub trait BoundaryPredicate {
    /// Whether a range may end just after `b`.
    spec fn spec_is_edge(&self, b: u8) -> bool;

    /// Tests `b`, as `spec_is_edge` says.
    fn is_edge(&self, b: u8) -> (r: bool)
        ensures
            r == self.spec_is_edge(b),
    ;
}

/// Ranges end just after each occurrence of one byte (a newline, a zero byte).
pub struct ByteIs {
    pub byte: u8,
}

impl BoundaryPredicate for ByteIs {
    open spec fn spec_is_edge(&self, b: u8) -> bool {
        b == self.byte
    }

    fn is_edge(&self, b: u8) -> (r: bool) {
        b == self.byte
    }
}

/// One range `[start, end)` of a source, with a read position `cursor`.
pub struct Split {
    pub file_name: String,
    pub start: u64,
    pub cursor: u64,
    pub end: u64,
}

/// The scan that `split_source` runs, one byte read at a time. The reader
/// asks `next_read` for the offset to read, hands the byte (or the end of the
/// source) to `feed`, and calls `finish` once `next_read` has nothing left.
pub struct SplitScan {
    pub file_name: String,
    /// The length of the source.
    pub size: u64,
    pub block: u64,
    /// Where the range that is being scanned starts.
    pub start: u64,
    /// The next offset to read; at `size` once nothing is left to read.
    pub cursor: u64,
    /// The ranges closed so far.
    pub splits: Vec<Split>,
    /// The source ended early.
    pub done: bool,
}

impl SplitScan {
    /// The positions are in order, and each closed range names the source
    /// and has its read position at its start.
    pub open spec fn wf(&self) -> bool {
        &&& self.block >= 1
        &&& self.start <= self.cursor <= self.size
        &&& forall|i: int|
            0 <= i < self.splits@.len() ==> (#[trigger] self.splits@[i]).file_name@
                == self.file_name@ && self.splits@[i].cursor == self.splits@[i].start
    }

    /// A scan of a source of `size` bytes, whose first candidate boundary is
    /// byte `block - 1`.
    pub fn new(file_name: String, size: u64, block: u64) -> (r: SplitScan)
        requires
            block >= 1,
        ensures
            r.wf(),
            r.file_name == file_name,
            r.size == size,
            r.block == block,
            r.start == 0,
            r.cursor == (if block - 1 >= size { size } else { (block - 1) as u64 }),
            r.splits@.len() == 0,
            !r.done,
    {
        let cursor = if block - 1 >= size {
            size
        } else {
            block - 1
        };
        SplitScan { file_name, size, block, start: 0, cursor, splits: Vec::new(), done: false }
    }

    /// The offset of the byte to read next, or `None` once the scan is over.
    pub fn next_read(&self) -> (r: Option<u64>)
        ensures
            r == (if self.done || self.cursor >= self.size {
                None
            } else {
                Some(self.cursor)
            }),
    {
        if self.done || self.cursor >= self.size {
            None
        } else {
            Some(self.cursor)
        }
    }

    /// Takes the byte read at `next_read`'s offset, or `None` where the
    /// source ended there. A byte that `edge` accepts closes the current
    /// range just after it, and the next candidate lies `block - 1` bytes on.
    pub fn feed<P: BoundaryPredicate>(&mut self, byte: Option<u8>, edge: &P)
        requires
            old(self).wf(),
            !old(self).done,
            old(self).cursor < old(self).size,
        ensures
            final(self).wf(),
            final(self).file_name == old(self).file_name,
            final(self).size == old(self).size,
            final(self).block == old(self).block,
            match byte {
                None => final(self).done && final(self).start == old(self).start
                    && final(self).cursor == old(self).cursor && final(self).splits@
                    == old(self).splits@,
                Some(b) => !final(self).done && if edge.spec_is_edge(b) {
                    &&& final(self).splits@ == old(self).splits@.push(
                        (Split {
                            file_name: old(self).file_name,
                            start: old(self).start,
                            cursor: old(self).start,
                            end: (old(self).cursor + 1) as u64,
                        }),
                    )
                    &&& final(self).start == old(self).cursor + 1
                    &&& final(self).cursor == (if old(self).cursor + old(self).block
                        >= old(self).size {
                        old(self).size
                    } else {
                        (old(self).cursor + old(self).block) as u64
                    })
                } else {
                    &&& final(self).splits@ == old(self).splits@
                    &&& final(self).start == old(self).start
                    &&& final(self).cursor == old(self).cursor + 1
                },
            },
    {
        match byte {
            None => {
                self.done = true;
            },
            Some(b) => {
                let c = self.cursor + 1;
                if edge.is_edge(b) {
                    let start = self.start;
                    self.splits.push(
                        Split { file_name: self.file_name.clone(), start, cursor: start, end: c },
                    );
                    self.start = c;
                    self.cursor = if self.block - 1 >= self.size - c {
                        self.size
                    } else {
                        c + (self.block - 1)
                    };
                } else {
                    self.cursor = c;
                }
            },
        }
    }

    /// The ranges closed so far, then the last one, from the current start
    /// to the end of the source.
    pub fn finish(self) -> (r: Vec<Split>)
        requires
            self.wf(),
        ensures
            r@ == self.splits@.push(
                (Split {
                    file_name: self.file_name,
                    start: self.start,
                    cursor: self.start,
                    end: self.size,
                }),
            ),
    {
        let mut splits = self.splits;
        let start = self.start;
        splits.push(Split { file_name: self.file_name, start, cursor: start, end: self.size });
        splits
    }
}

/// The ranges of a sequence of splits.
pub open spec fn ranges(s: Seq<Split>) -> Seq<(int, int)> {
    s.map_values(|x: Split| (x.start as int, x.end as int))
}

/// The ranges that scanning `src` gives, with the current range opened at
/// `start` and the next byte to read at `cur`. After a boundary byte the scan
/// skips `step` bytes before it reads again.
pub open spec fn scan<P: BoundaryPredicate>(
    src: Seq<u8>,
    edge: P,
    step: nat,
    start: int,
    cur: int,
) -> Seq<(int, int)>
    decreases (if cur < src.len() { src.len() - cur } else { 0 }),
{
    if cur >= src.len() || cur < 0 {
        seq![(start, src.len() as int)]
    } else if edge.spec_is_edge(src[cur]) {
        seq![(start, cur + 1)] + scan(src, edge, step, cur + 1, cur + 1 + step)
    } else {
        scan(src, edge, step, start, cur + 1)
    }
}

/// The ranges that `split_source` cuts `src` into with block size `block`.
pub open spec fn split_ranges<P: BoundaryPredicate>(src: Seq<u8>, edge: P, block: int) -> Seq<
    (int, int),
> {
    scan(src, edge, (block - 1) as nat, 0, block - 1)
}

impl Split {
    /// The read position lies within the range.
    pub open spec fn wf(&self) -> bool {
        self.start <= self.cursor <= self.end
    }

    /// Cuts `source` into contiguous ranges, by running a `SplitScan` over
    /// it. The first candidate boundary is byte `block - 1`; from there the
    /// scan reads on to the next byte that `edge` accepts and ends the range
    /// just after it; the next range's first candidate lies `block - 1` bytes
    /// further on. The last range ends at the end of the source.
    pub fn split_source<P: BoundaryPredicate>(
        source: &[u8],
        file_name: String,
        block: u64,
        edge: &P,
    ) -> (r: Vec<Split>)
        requires
            block >= 1,
        ensures
            ranges(r@) == split_ranges(source@, *edge, block as int),
            forall|i: int|
                0 <= i < r@.len() ==> (#[trigger] r@[i]).file_name@ == file_name@ && r@[i].cursor
                    == r@[i].start,
    {
        let ghost src = source@;
        let ghost step: nat = (block - 1) as nat;
        let ghost full = split_ranges(src, *edge, block as int);
        let mut state = SplitScan::new(file_name, source.len() as u64, block);
        assert(scan(src, *edge, step, 0, block - 1) == scan(src, *edge, step, 0, state.cursor as int));
        assert(ranges(state.splits@) + scan(src, *edge, step, 0, state.cursor as int) =~= full);
        loop
            invariant
                state.wf(),
                state.size == src.len(),
                src == source@,
                step == state.block - 1,
                !state.done,
                state.file_name@ == file_name@,
                ranges(state.splits@) + scan(src, *edge, step, state.start as int, state.cursor as int)
                    == full,
            ensures
                state.wf(),
                state.size == src.len(),
                state.file_name@ == file_name@,
                state.cursor >= state.size,
                ranges(state.splits@) + seq![(state.start as int, src.len() as int)] == full,
            decreases state.size - state.cursor,
        {
            match state.next_read() {
                None => {
                    break;
                },
                Some(pos) => {
                    let b = source[pos as usize];
                    let ghost before = state.splits@;
                    let ghost (start, cursor) = (state.start as int, state.cursor as int);
                    state.feed(Some(b), edge);
                    proof {
                        if edge.spec_is_edge(b) {
                            assert(ranges(state.splits@) =~= ranges(before) + seq![(start, cursor + 1)]);
                            assert(scan(src, *edge, step, state.start as int, cursor + 1 + step) == scan(
                                src,
                                *edge,
                                step,
                                state.start as int,
                                state.cursor as int,
                            ));
                            assert(ranges(state.splits@) + scan(
                                src,
                                *edge,
                                step,
                                state.start as int,
                                state.cursor as int,
                            ) =~= full);
                        }
                    }
                },
            }
        }
        let r = state.finish();
        assert(ranges(r@) =~= full);
        r
    }

    /// Moves the read position back to the start of the range.
    pub fn open(&mut self)
        requires
            old(self).start <= old(self).end,
        ensures
            final(self).wf(),
            final(self).cursor == final(self).start,
            final(self).start == old(self).start,
            final(self).end == old(self).end,
            final(self).file_name == old(self).file_name,
    {
        self.cursor = self.start;
    }

    /// How many bytes a read of `requested` bytes at the read position
    /// yields: never more than the range has left.
    pub fn read_limit(&self, requested: usize) -> (r: usize)
        requires
            self.wf(),
        ensures
            r as int == if requested as int <= self.end - self.cursor {
                requested as int
            } else {
                self.end - self.cursor
            },
    {
        let left: u64 = self.end - self.cursor;
        if (requested as u64) <= left {
            requested
        } else {
            left as usize
        }
    }

    /// Moves the read position on by `n` bytes that were read.
    pub fn advance(&mut self, n: usize)
        requires
            old(self).wf(),
            n <= old(self).end - old(self).cursor,
        ensures
            final(self).wf(),
            final(self).cursor == old(self).cursor + n,
            final(self).start == old(self).start,
            final(self).end == old(self).end,
            final(self).file_name == old(self).file_name,
    {
        self.cursor = self.cursor + n as u64;
    }

    /// Reads up to `requested` bytes of the range from `source` at the read
    /// position, appends them to `buf` and moves the read position past them.
    /// Returns how many bytes were read; nothing past `end` is ever read.
    pub fn read(&mut self, source: &[u8], buf: &mut Vec<u8>, requested: usize) -> (r: usize)
        requires
            old(self).wf(),
            old(self).end <= source@.len(),
        ensures
            final(self).wf(),
            r as int == if requested as int <= old(self).end - old(self).cursor {
                requested as int
            } else {
                old(self).end - old(self).cursor
            },
            final(self).cursor == old(self).cursor + r,
            final(self).cursor <= final(self).end,
            final(self).start == old(self).start,
            final(self).end == old(self).end,
            final(self).file_name == old(self).file_name,
            final(buf)@ == old(buf)@ + source@.subrange(
                old(self).cursor as int,
                old(self).cursor + r,
            ),
    {
        let n = self.read_limit(requested);
        let len: usize = source.len();
        assert(self.cursor <= len);
        let from = self.cursor as usize;
        assert(from as int == self.cursor);
        let mut k: usize = 0;
        let ghost head = buf@;
        while k < n
            invariant
                k <= n,
                from + n <= len,
                len == source@.len(),
                buf@ == head + source@.subrange(from as int, from + k),
            decreases n - k,
        {
            buf.push(source[from + k]);
            assert(buf@ =~= head + source@.subrange(from as int, from + k + 1));
            k = k + 1;
        }
        self.advance(n);
        n
    }
}

/// The ranges are contiguous and ordered, run from `start` to the end of
/// `src`, and each but the last ends just after a byte that `edge` accepts.
pub open spec fn covers<P: BoundaryPredicate>(src: Seq<u8>, edge: P, r: Seq<(int, int)>, start: int) -> bool {
    &&& r.len() >= 1
    &&& r[0].0 == start
    &&& r.last().1 == src.len()
    &&& forall|i: int| 0 <= i < r.len() ==> (#[trigger] r[i]).0 <= r[i].1
    &&& forall|i: int|
        0 <= i < r.len() - 1 ==> (#[trigger] r[i]).1 == r[i + 1].0 && 1 <= r[i].1 <= src.len()
            && edge.spec_is_edge(src[r[i].1 - 1])
}

proof fn lemma_scan_covers<P: BoundaryPredicate>(
    src: Seq<u8>,
    edge: P,
    step: nat,
    start: int,
    cur: int,
)
    requires
        0 <= start <= src.len(),
        start <= cur,
    ensures
        covers(src, edge, scan(src, edge, step, start, cur), start),
    decreases (if cur < src.len() { src.len() - cur } else { 0 }),
{
    let r = scan(src, edge, step, start, cur);
    if cur >= src.len() || cur < 0 {
    } else if edge.spec_is_edge(src[cur]) {
        let rest = scan(src, edge, step, cur + 1, cur + 1 + step);
        lemma_scan_covers(src, edge, step, cur + 1, cur + 1 + step);
        assert(r == seq![(start, cur + 1)] + rest);
        assert forall|i: int| 0 <= i < r.len() - 1 implies (#[trigger] r[i]).1 == r[i + 1].0 && 1
            <= r[i].1 <= src.len() && edge.spec_is_edge(src[r[i].1 - 1]) by {
            if i > 0 {
                assert(r[i] == rest[i - 1]);
                assert(r[i + 1] == rest[i]);
            }
        }
        assert forall|i: int| 0 <= i < r.len() implies (#[trigger] r[i]).0 <= r[i].1 by {
            if i > 0 {
                assert(r[i] == rest[i - 1]);
            }
        }
    } else {
        lemma_scan_covers(src, edge, step, start, cur + 1);
    }
}

/// For any source, any block size of at least 1 and any predicate, the
/// ranges start at 0, end at the end of the source, follow one another with
/// no gap and no overlap, and each but the last ends just after a byte that
/// the predicate accepts.
pub proof fn lemma_split_coverage<P: BoundaryPredicate>(src: Seq<u8>, edge: P, block: int)
    requires
        block >= 1,
    ensures
        covers(src, edge, split_ranges(src, edge, block), 0),
{
    lemma_scan_covers(src, edge, (block - 1) as nat, 0, block - 1);
}

/// Where `block - 1` reaches the end of the source, the whole source is one
/// range, whatever the predicate.
pub proof fn lemma_split_single<P: BoundaryPredicate>(src: Seq<u8>, edge: P, block: int)
    requires
        block >= 1,
        block - 1 >= src.len(),
    ensures
        split_ranges(src, edge, block) == seq![(0int, src.len() as int)],
{
}

} // verus!
