//! The reverse scanner: a state machine that walks a byte resource from its
//! tail toward its head in fixed-size chunks and emits one line per fetch,
//! last line first.
//!
//! The scanner performs no I/O itself. [`ReverseLineReader::advance`] either
//! resolves the current fetch (a line, or end of stream) or names the byte
//! range the caller must read next; [`ReverseLineReader::feed`] hands the
//! read bytes back. A caller that owns the resource runs the loop:
//! `advance`, and on a read request, read the range and `feed` it. For a
//! resource that is already in memory, [`ReverseLineReader::read_next_rev_line_from`]
//! runs that loop itself, and its contract ties the emitted lines to
//! [`rev_lines`] of the content.

use vstd::prelude::*;
use crate::bytes_trim::{BytesTrim, copy_slice_range};
use crate::lines::{
    last_nl, lemma_last_nl_add, lemma_last_nl_bounds, lemma_last_nl_found, lemma_last_nl_unique,
    rev_lines, rev_lines_from, trim_line, CR, NL,
};

verus! {

/// The fragments of a line still being stitched together, concatenated in
/// ascending file-offset order. Fragments are pushed as the scan moves
/// toward the head of the file, so the fragment pushed last comes first.
pub open spec fn cat_rev(fs: Seq<Seq<u8>>) -> Seq<u8>
    decreases fs.len(),
{
    if fs.len() == 0 {
        Seq::<u8>::empty()
    } else {
        fs.last() + cat_rev(fs.drop_last())
    }
}

/// Appending a fragment on the pending list prepends its bytes to the
/// assembled content.
pub proof fn lemma_cat_rev_push(fs: Seq<Seq<u8>>, x: Seq<u8>)
    ensures
        cat_rev(fs.push(x)) == x + cat_rev(fs),
{
    assert(fs.push(x).drop_last() =~= fs);
    assert(fs.push(x).last() == x);
}

/// A concatenation of `\n`-free fragments is `\n`-free.
pub proof fn lemma_cat_rev_nl_free(fs: Seq<Seq<u8>>)
    requires
        forall|i: int| 0 <= i < fs.len() ==> last_nl(#[trigger] fs[i]) < 0,
    ensures
        last_nl(cat_rev(fs)) < 0,
    decreases fs.len(),
{
    if fs.len() == 0 {
        assert(last_nl(Seq::<u8>::empty()) == -1);
    } else {
        assert(forall|i: int|
            0 <= i < fs.drop_last().len() ==> fs.drop_last()[i] == #[trigger] fs[i]);
        lemma_cat_rev_nl_free(fs.drop_last());
        assert(fs.last() == fs[fs.len() - 1]);
        lemma_last_nl_add(fs.last(), cat_rev(fs.drop_last()));
    }
}

/// The abstract state of a scanner: the file offset below which nothing has
/// been read yet, the configured chunk size, the bytes read but not yet
/// attributed to an emitted line (`remainder`, lying at offsets
/// `[cursor, cursor + remainder.len())`), and the `\n`-free fragments of a
/// line currently being stitched (highest offset first).
#[verifier::ext_equal]
pub ghost struct ScanView {
    pub cursor: u64,
    pub buf_size: usize,
    pub remainder: Option<Seq<u8>>,
    pub pending: Seq<Seq<u8>>,
}

impl ScanView {
    /// The length of the remainder, if any.
    pub open spec fn rem_len(self) -> int {
        match self.remainder {
            Some(r) => r.len() as int,
            None => 0,
        }
    }

    /// The file offset before which bytes are still owed to the caller:
    /// everything at or above it has either been emitted or sits in a
    /// pending fragment. This is the safe truncation boundary between
    /// fetches.
    pub open spec fn consumed_through(self) -> int {
        self.cursor + self.rem_len()
    }

    /// How many bytes a read request issued in this state asks for: a full
    /// chunk, or whatever is left above the head of the file.
    pub open spec fn read_len(self) -> int {
        if self.cursor >= self.buf_size {
            self.buf_size as int
        } else {
            self.cursor as int
        }
    }

    /// Structural soundness of a scanner state: the chunk size is positive
    /// and the consumed-through offset fits in a `u64`.
    pub open spec fn wf(self) -> bool {
        &&& self.buf_size >= 1
        &&& self.consumed_through() <= u64::MAX
    }

    /// The scanner agrees with content `data`: the remainder holds exactly
    /// the bytes of `data` at `[cursor, cursor + remainder.len())`.
    pub open spec fn consistent_with(self, data: Seq<u8>) -> bool {
        &&& self.consumed_through() <= data.len()
        &&& match self.remainder {
            Some(r) => r == data.subrange(self.cursor as int, self.cursor + r.len()),
            None => true,
        }
    }

    /// The part of `data` not yet emitted as lines.
    pub open spec fn unscanned(self, data: Seq<u8>) -> Seq<u8> {
        data.take(self.consumed_through())
    }

    /// The lines still to be emitted from `data`, in emission order. While a
    /// remainder is held, a terminator was seen to its right, so at least
    /// one more line is owed even if the remainder is empty; without one,
    /// an exhausted scan owes nothing.
    pub open spec fn remaining_lines(self, data: Seq<u8>) -> Seq<Seq<u8>> {
        if self.remainder is Some {
            rev_lines_from(self.unscanned(data))
        } else {
            rev_lines(self.unscanned(data))
        }
    }

    /// A scanner between fetches: no line is being stitched.
    pub open spec fn idle(self) -> bool {
        self.pending.len() == 0
    }
}

/// What resolving a scan step does when no remainder is held: with bytes
/// still unread below the cursor, ask for the next chunk; otherwise the head
/// of the file has been reached, and the pending fragments (if any) form the
/// file's first line.
pub open spec fn resolve_post(pre: ScanView, post: ScanView, step: FetchStep) -> bool {
    if pre.cursor > 0 {
        &&& (step matches FetchStep::Need { offset, len } ==> offset == pre.cursor
            - pre.read_len() && len as int == pre.read_len())
        &&& step is Need
        &&& post == pre
    } else if pre.pending.len() > 0 {
        &&& (step matches FetchStep::Line(l) ==> l@ == trim_line(cat_rev(pre.pending)))
        &&& step is Line
        &&& post == (ScanView { pending: Seq::<Seq<u8>>::empty(), ..pre })
    } else {
        &&& step is End
        &&& post == pre
    }
}

/// What one call to [`ReverseLineReader::advance`] does, as a relation
/// between the state before, the state after, and the returned step. A held
/// remainder is scanned back-to-front for `\n`: on a hit at position `p`,
/// the bytes after `p` close the current line (stitched after any pending
/// fragments) and the bytes before `p` become the new remainder; on a miss
/// the whole remainder joins the pending fragments and the step is resolved
/// as [`resolve_post`] says.
pub open spec fn advance_post(pre: ScanView, post: ScanView, step: FetchStep) -> bool {
    match pre.remainder {
        Some(r) => {
            let p = last_nl(r);
            if p >= 0 {
                &&& (step matches FetchStep::Line(l) ==> l@ == trim_line(
                    r.subrange(p + 1, r.len() as int) + cat_rev(pre.pending)))
                &&& step is Line
                &&& post == (ScanView {
                    remainder: Some(r.subrange(0, p)),
                    pending: Seq::<Seq<u8>>::empty(),
                    ..pre
                })
            } else {
                resolve_post(
                    ScanView { remainder: None, pending: pre.pending.push(r), ..pre },
                    post,
                    step,
                )
            }
        },
        None => resolve_post(pre, post, step),
    }
}

/// What one call to [`ReverseLineReader::advance`] resolves to.
pub enum FetchStep {
    /// A completed line, terminators stripped.
    Line(BytesTrim),
    /// The caller must read exactly `len` bytes at absolute offset `offset`
    /// of the resource and hand them to [`ReverseLineReader::feed`].
    Need { offset: u64, len: usize },
    /// The stream is exhausted; nothing is left to emit.
    End,
}

/// The reverse scanner's persistent state. See the module documentation for
/// the driving protocol.
pub struct ReverseLineReader {
    cursor: u64,
    buf_size: usize,
    remainder: Option<BytesTrim>,
    pending: Vec<BytesTrim>,
}

impl View for ReverseLineReader {
    type V = ScanView;

    closed spec fn view(&self) -> ScanView {
        ScanView {
            cursor: self.cursor,
            buf_size: self.buf_size,
            remainder: match self.remainder {
                Some(r) => Some(r@),
                None => None,
            },
            pending: self.pending@.map_values(|b: BytesTrim| b@),
        }
    }
}

impl ReverseLineReader {
    /// A scanner over a resource of length `file_len`, reading backward in
    /// chunks of `buf_size` bytes. A zero chunk size is an invalid
    /// configuration and is rejected here, at construction.
    pub fn new(file_len: u64, buf_size: usize) -> (r: ReverseLineReader)
        requires
            buf_size >= 1,
        ensures
            r@ == (ScanView {
                cursor: file_len,
                buf_size: buf_size,
                remainder: None,
                pending: Seq::<Seq<u8>>::empty(),
            }),
    {
        let r = ReverseLineReader { cursor: file_len, buf_size, remainder: None, pending: Vec::new() };
        proof {
            assert(r@.pending =~= Seq::<Seq<u8>>::empty());
        }
        r
    }

    /// The consumed-through offset: every byte of the resource at or beyond
    /// it has been emitted (or, below `consumed_through + remainder.len()`,
    /// is buffered for a future line). Between fetches this is the offset
    /// down to which the resource may safely be truncated.
    pub fn current_cursor(&self) -> (c: u64)
        requires
            self@.wf(),
        ensures
            c == self@.consumed_through(),
    {
        match &self.remainder {
            Some(r) => self.cursor + r.len() as u64,
            None => self.cursor,
        }
    }

    /// Accepts the bytes of a read requested by [`ReverseLineReader::advance`]:
    /// exactly the `read_len` bytes just below the cursor.
    pub fn feed(&mut self, chunk: Vec<u8>)
        requires
            old(self)@.wf(),
            old(self)@.remainder is None,
            old(self)@.cursor > 0,
            chunk@.len() == old(self)@.read_len(),
        ensures
            final(self)@ == (ScanView {
                cursor: (old(self)@.cursor - chunk@.len()) as u64,
                remainder: Some(chunk@),
                ..old(self)@
            }),
            final(self)@.wf(),
    {
        let len = chunk.len();
        self.cursor = self.cursor - len as u64;
        self.remainder = Some(BytesTrim::new_with_bytes(chunk));
    }

    /// Drains the pending fragments into one buffer, after the given tail
    /// slice of the view where the terminator was found: `tail[from..]`
    /// holds the lowest-offset piece of the line, the fragments follow in
    /// ascending file-offset order. Trims the result as a finished line.
    fn assemble(&mut self, tail: &BytesTrim, from: usize) -> (line: BytesTrim)
        requires
            from <= tail@.len(),
        ensures
            line@ == trim_line(
                tail@.subrange(from as int, tail@.len() as int) + cat_rev(old(self)@.pending),
            ),
            final(self)@ == (ScanView { pending: Seq::<Seq<u8>>::empty(), ..old(self)@ }),
    {
        let ghost t0 = tail@.subrange(from as int, tail@.len() as int);
        let ghost p0 = self@.pending;
        let mut out: Vec<u8> = Vec::new();
        let n = tail.len();
        let mut i: usize = from;
        while i < n
            invariant
                from <= i <= n == tail@.len(),
                out@ =~= tail@.subrange(from as int, i as int),
            decreases n - i,
        {
            out.push(tail.get(i));
            i = i + 1;
            proof {
                assert(out@ =~= tail@.subrange(from as int, i as int));
            }
        }
        proof {
            assert(out@ =~= t0);
        }
        loop
            invariant
                self@.cursor == old(self)@.cursor,
                self@.buf_size == old(self)@.buf_size,
                self@.remainder == old(self)@.remainder,
                out@ + cat_rev(self@.pending) =~= t0 + cat_rev(p0),
            ensures
                self@ == (ScanView { pending: Seq::<Seq<u8>>::empty(), ..old(self)@ }),
                out@ =~= t0 + cat_rev(p0),
            decreases self@.pending.len(),
        {
            let ghost pend_before = self@.pending;
            match self.pending.pop() {
                Some(frag) => {
                    proof {
                        assert(self@.pending =~= pend_before.drop_last());
                        assert(frag@ == pend_before.last());
                    }
                    let m = frag.len();
                    let ghost out_before = out@;
                    let mut j: usize = 0;
                    while j < m
                        invariant
                            j <= m == frag@.len(),
                            out@ =~= out_before + frag@.subrange(0, j as int),
                        decreases m - j,
                    {
                        out.push(frag.get(j));
                        j = j + 1;
                        proof {
                            assert(out@ =~= out_before + frag@.subrange(0, j as int));
                        }
                    }
                    proof {
                        assert(frag@.subrange(0, m as int) =~= frag@);
                        assert(cat_rev(pend_before) == pend_before.last() + cat_rev(
                            pend_before.drop_last(),
                        ));
                        assert(out@ + cat_rev(self@.pending) =~= t0 + cat_rev(p0));
                    }
                },
                None => {
                    proof {
                        assert(self@.pending.len() == 0);
                        assert(cat_rev(self@.pending) =~= Seq::<u8>::empty());
                        assert(out@ =~= t0 + cat_rev(p0));
                        assert(self@ == (ScanView {
                            pending: Seq::<Seq<u8>>::empty(),
                            ..old(self)@
                        }));
                    }
                    break ;
                },
            }
        }
        let mut line = BytesTrim::new_with_bytes(out);
        let ghost raw = line@;
        if line.len() > 0 && line.get(0) == NL {
            let e = line.len();
            line.self_slice(1, e);
        }
        proof {
            let t = if raw.len() > 0 && raw[0] == NL {
                raw.subrange(1, raw.len() as int)
            } else {
                raw
            };
            assert(line@ =~= t);
        }
        if line.len() > 0 {
            let e = line.len();
            if line.get(e - 1) == CR {
                line.self_slice(0, e - 1);
            }
        }
        proof {
            assert(line@ =~= trim_line(raw));
        }
        line
    }

    /// Resolves a step when no remainder is held: request the next chunk,
    /// emit the file's first line from the pending fragments, or report the
    /// end of the stream.
    fn resolve(&mut self) -> (step: FetchStep)
        requires
            old(self)@.wf(),
            old(self)@.remainder is None,
        ensures
            final(self)@.wf(),
            resolve_post(old(self)@, final(self)@, step),
    {
        if self.cursor > 0 {
            let m: u64 = if self.cursor >= self.buf_size as u64 {
                self.buf_size as u64
            } else {
                self.cursor
            };
            FetchStep::Need { offset: self.cursor - m, len: m as usize }
        } else if self.pending.len() > 0 {
            let empty_tail = BytesTrim::new_with_bytes(Vec::new());
            let line = self.assemble(&empty_tail, 0);
            proof {
                assert(empty_tail@.subrange(0, empty_tail@.len() as int) + cat_rev(
                    old(self)@.pending,
                ) =~= cat_rev(old(self)@.pending));
            }
            FetchStep::Line(line)
        } else {
            FetchStep::End
        }
    }

    /// Fetches the next line, last line first, from a resource whose whole
    /// content is the in-memory buffer `data`: runs the `advance`/`feed`
    /// loop, reading the requested ranges out of `data`.
    ///
    /// Each call pops the head of [`ScanView::remaining_lines`]: it returns
    /// `Some` of exactly the first still-unemitted line of `data` and leaves
    /// the rest, or `None`, with the state untouched, precisely when no line
    /// is left.
    #[verifier::rlimit(100)]
    pub fn read_next_rev_line_from(&mut self, data: &Vec<u8>) -> (r: Option<BytesTrim>)
        requires
            old(self)@.wf(),
            old(self)@.idle(),
            old(self)@.consistent_with(data@),
        ensures
            final(self)@.wf(),
            final(self)@.idle(),
            final(self)@.consistent_with(data@),
            final(self)@.buf_size == old(self)@.buf_size,
            final(self)@.consumed_through() <= old(self)@.consumed_through(),
            match r {
                Some(l) => {
                    &&& old(self)@.remaining_lines(data@).len() > 0
                    &&& l@ == old(self)@.remaining_lines(data@).first()
                    &&& final(self)@.remaining_lines(data@) == old(self)@.remaining_lines(
                        data@,
                    ).drop_first()
                },
                None => {
                    &&& old(self)@.remaining_lines(data@).len() == 0
                    &&& final(self)@ == old(self)@
                },
            },
    {
        let ghost v0 = old(self)@;
        let ghost cap = v0.consumed_through();
        let ghost u0 = data@.take(cap);
        let ghost r0 = v0.remaining_lines(data@);
        let dlen = data.len();
        #[verifier::loop_isolation(false)]
        loop
            invariant
                self@.wf(),
                self@.buf_size == v0.buf_size,
                dlen == data@.len(),
                0 <= self@.consumed_through() <= cap <= data@.len(),
                match self@.remainder {
                    Some(rr) => rr == data@.subrange(
                        self@.cursor as int,
                        self@.cursor + rr.len(),
                    ),
                    None => true,
                },
                cat_rev(self@.pending) == data@.subrange(self@.consumed_through(), cap),
                forall|i: int|
                    0 <= i < self@.pending.len() ==> last_nl(#[trigger] self@.pending[i]) < 0,
                (self@.remainder is None && self@.pending.len() == 0) ==> (self@ == v0
                    && v0.remainder is None),
                (self@.remainder is Some || self@.pending.len() > 0) ==> r0 == rev_lines_from(
                    u0,
                ),
            decreases self@.cursor,
        {
            let ghost pre = self@;
            let step = self.advance();
            match step {
                FetchStep::Line(l) => {
                    proof {
                        let mid = self@;
                        if pre.remainder is Some && last_nl(pre.remainder->Some_0) >= 0 {
                            // The terminator was found inside the remainder.
                            let rr = pre.remainder->Some_0;
                            let p_r = last_nl(rr);
                            let c = pre.cursor as int;
                            let pabs = c + p_r;
                            let w = data@.take(c + rr.len());
                            let pcat = cat_rev(pre.pending);
                            lemma_last_nl_bounds(rr);
                            assert(w =~= data@.take(c) + rr);
                            lemma_cat_rev_nl_free(pre.pending);
                            lemma_last_nl_add(w, pcat);
                            assert(pcat == data@.subrange(c + rr.len(), cap));
                            assert(w.len() == c + rr.len());
                            assert(u0 =~= w + pcat);
                            lemma_last_nl_add(data@.take(c), rr);
                            assert(last_nl(u0) == pabs);
                            assert(u0.len() == cap);
                            assert(r0 == rev_lines_from(u0));
                            assert(rev_lines_from(u0) == seq![
                                trim_line(u0.subrange(pabs + 1, cap)),
                            ] + rev_lines_from(u0.subrange(0, pabs)));
                            assert(u0.subrange(pabs + 1, cap) =~= rr.subrange(
                                p_r + 1,
                                rr.len() as int,
                            ) + pcat);
                            assert(l@ == r0.first());
                            // The new remainder is the content below the terminator.
                            assert(mid.remainder->Some_0 =~= data@.subrange(c, pabs));
                            assert(mid.consumed_through() == pabs);
                            assert(u0.subrange(0, pabs) =~= data@.take(pabs));
                            assert(mid.remaining_lines(data@) == rev_lines_from(
                                data@.take(pabs),
                            ));
                            assert(mid.remaining_lines(data@) =~= r0.drop_first());
                            assert(cat_rev(mid.pending) =~= data@.subrange(pabs, pabs));
                        } else {
                            // The head of the file was reached: the line is
                            // the whole assembled pending content.
                            let pv = if pre.remainder is Some {
                                pre.pending.push(pre.remainder->Some_0)
                            } else {
                                pre.pending
                            };
                            if pre.remainder is Some {
                                let rr = pre.remainder->Some_0;
                                lemma_cat_rev_push(pre.pending, rr);
                                assert(pre.cursor == 0);
                                assert(rr == data@.subrange(0, rr.len() as int));
                                assert(cat_rev(pre.pending) == data@.subrange(
                                    rr.len() as int,
                                    cap,
                                ));
                                assert(cat_rev(pv) == rr + cat_rev(pre.pending));
                                assert(cat_rev(pv) =~= u0);
                            } else {
                                assert(pre.consumed_through() == 0);
                                assert(cat_rev(pv) =~= u0);
                            }
                            assert(forall|i: int|
                                0 <= i < pv.len() ==> last_nl(#[trigger] pv[i]) < 0);
                            lemma_cat_rev_nl_free(pv);
                            assert(last_nl(u0) < 0);
                            assert(r0 == rev_lines_from(u0));
                            assert(rev_lines_from(u0) == seq![trim_line(u0)]);
                            assert(l@ == trim_line(cat_rev(pv)));
                            assert(l@ == r0.first());
                            assert(mid.consumed_through() == 0);
                            assert(mid.unscanned(data@) =~= Seq::<u8>::empty());
                            assert(mid.remaining_lines(data@) =~= r0.drop_first());
                            assert(cat_rev(mid.pending) =~= data@.subrange(0, 0));
                        }
                    }
                    return Some(l);
                },
                FetchStep::End => {
                    proof {
                        assert(self@ == v0 && v0.remainder is None);
                        assert(cap == 0);
                        assert(u0.len() == 0);
                        assert(r0 == rev_lines(u0));
                    }
                    return None;
                },
                FetchStep::Need { offset, len } => {
                    proof {
                        assert(self@.remainder is None);
                        assert(self@.cursor == pre.cursor > 0);
                        assert(offset + len == self@.cursor);
                        assert(self@.consumed_through() == self@.cursor as int);
                        assert(self@.consumed_through() <= cap <= dlen);
                    }
                    let off = offset as usize;
                    let chunk = copy_slice_range(data.as_slice(), off, off + len);
                    let ghost fed = self@;
                    self.feed(chunk);
                    proof {
                        assert(self@.consumed_through() == fed.cursor as int);
                        assert(self@.remainder->Some_0 =~= data@.subrange(
                            self@.cursor as int,
                            self@.cursor + self@.rem_len(),
                        ));
                        if pre.remainder is Some {
                            let rr = pre.remainder->Some_0;
                            lemma_cat_rev_push(pre.pending, rr);
                            assert(rr == data@.subrange(pre.cursor as int, pre.cursor + rr.len()));
                            assert(cat_rev(pre.pending) == data@.subrange(
                                pre.cursor + rr.len(),
                                cap,
                            ));
                            assert(cat_rev(self@.pending) =~= data@.subrange(
                                pre.cursor as int,
                                cap,
                            ));
                        }
                        assert(cat_rev(self@.pending) == data@.subrange(
                            self@.consumed_through(),
                            cap,
                        ));
                        if !(pre.remainder is Some || pre.pending.len() > 0) {
                            // First read of a fresh fetch on a fresh scanner:
                            // the whole unscanned region is owed from here on.
                            assert(pre == v0 && v0.remainder is None);
                            assert(cap == v0.cursor as int > 0);
                            assert(u0.len() == cap > 0);
                            assert(r0 == rev_lines(u0));
                            assert(r0 == rev_lines_from(u0));
                        }
                    }
                },
            }
        }
    }

    /// Makes one step of the fetch-next-line loop: scans the held remainder
    /// for the last `\n`, and either completes a line, asks the caller for
    /// the next chunk, or reports end of stream. [`advance_post`] pins the
    /// exact transition.
    pub fn advance(&mut self) -> (step: FetchStep)
        requires
            old(self)@.wf(),
        ensures
            final(self)@.wf(),
            advance_post(old(self)@, final(self)@, step),
    {
        let rem = self.remainder.take();
        match rem {
            Some(mut r) => {
                match find_last_nl(&r) {
                    Some(p) => {
                        let rlen = r.len();
                        proof {
                            lemma_last_nl_bounds(r@);
                            assert(p < rlen);
                        }
                        let line = self.assemble(&r, p + 1);
                        r.self_slice(0, p);
                        self.remainder = Some(r);
                        proof {
                            assert(self@ == (ScanView {
                                remainder: Some(old(self)@.remainder->Some_0.subrange(
                                    0,
                                    last_nl(old(self)@.remainder->Some_0),
                                )),
                                pending: Seq::<Seq<u8>>::empty(),
                                ..old(self)@
                            }));
                        }
                        FetchStep::Line(line)
                    },
                    None => {
                        self.pending.push(r);
                        proof {
                            assert(self@.pending =~= old(self)@.pending.push(r@));
                            assert(self@ == (ScanView {
                                remainder: None,
                                pending: old(self)@.pending.push(r@),
                                ..old(self)@
                            }));
                        }
                        self.resolve()
                    },
                }
            },
            None => {
                proof {
                    assert(self@ == old(self)@);
                }
                self.resolve()
            },
        }
    }
}

/// Drains an in-memory resource completely: every line of `data`, from the
/// last to the first, regardless of the chunk size the scan uses. That the
/// result is a function of `data` alone — `buf_size` does not appear in the
/// contract — is the chunk-size independence of the scan.
pub fn read_all_rev_lines(data: &Vec<u8>, buf_size: usize) -> (ls: Vec<BytesTrim>)
    requires
        buf_size >= 1,
    ensures
        ls@.map_values(|l: BytesTrim| l@) == rev_lines(data@),
{
    let file_len: u64 = data.len() as u64;
    let mut rd = ReverseLineReader::new(file_len, buf_size);
    let mut ls: Vec<BytesTrim> = Vec::new();
    proof {
        assert(data@.take(file_len as int) =~= data@);
        assert(ls@.map_values(|l: BytesTrim| l@) =~= Seq::<Seq<u8>>::empty());
        assert(ls@.map_values(|l: BytesTrim| l@) + rd@.remaining_lines(data@) =~= rev_lines(
            data@,
        ));
    }
    #[verifier::loop_isolation(false)]
    loop
        invariant
            rd@.wf(),
            rd@.idle(),
            rd@.consistent_with(data@),
            ls@.map_values(|l: BytesTrim| l@) + rd@.remaining_lines(data@) == rev_lines(data@),
        decreases rd@.remaining_lines(data@).len(),
    {
        let ghost emitted = ls@.map_values(|l: BytesTrim| l@);
        let ghost rem = rd@.remaining_lines(data@);
        match rd.read_next_rev_line_from(data) {
            Some(l) => {
                ls.push(l);
                proof {
                    assert(ls@.map_values(|x: BytesTrim| x@) =~= emitted.push(l@));
                    assert(emitted.push(rem.first()) + rem.drop_first() =~= emitted + rem);
                }
            },
            None => {
                proof {
                    assert(ls@.map_values(|l: BytesTrim| l@) =~= rev_lines(data@));
                }
                return ls;
            },
        }
    }
}

/// Truncation removes only already-emitted bytes: cutting the resource at
/// an idle scanner's consumed-through offset leaves content whose lines are
/// exactly the lines the scanner has not yet emitted, so a fresh scan of
/// the shortened resource picks up where this one stood.
///
/// The one state excluded is a scan that still owes a line although nothing
/// of the content is left to hold it (the content began with `\n` and every
/// byte of it has been consumed): that final empty line occupies no bytes,
/// so no truncation boundary can preserve it.
pub proof fn lemma_truncation_safety(v: ScanView, data: Seq<u8>)
    requires
        v.idle(),
        v.consistent_with(data),
        v.remainder is Some ==> v.consumed_through() > 0,
    ensures
        rev_lines(data.take(v.consumed_through())) == v.remaining_lines(data),
{
    assert(data.take(v.consumed_through()).len() == v.consumed_through());
}

/// Finds the position of the last `\n` in the window, scanning back to
/// front, or reports that the window holds none.
fn find_last_nl(v: &BytesTrim) -> (r: Option<usize>)
    ensures
        match r {
            Some(p) => p == last_nl(v@),
            None => last_nl(v@) < 0,
        },
{
    let n = v.len();
    let mut i: usize = n;
    while i > 0
        invariant
            i <= n == v@.len(),
            forall|j: int| i <= j < v@.len() ==> v@[j] != NL,
        decreases i,
    {
        i = i - 1;
        if v.get(i) == NL {
            proof {
                lemma_last_nl_unique(v@, i as int);
            }
            return Some(i);
        }
    }
    proof {
        lemma_last_nl_bounds(v@);
        lemma_last_nl_found(v@);
    }
    None
}

} // verus!
