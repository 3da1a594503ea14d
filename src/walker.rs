use vstd::prelude::*;

use crate::lines::{lemma_last_line, lemma_lines_from_len, lemma_lines_from_split, lines, lines_from, strip_cr, CR, LF};
use vstd::string::StringSliceAdditionalSpecFns;
use vstd::utf8::valid_utf8;

verus! {

/// Walks the lines of a buffer from first to last.
pub struct LineWalker<'a> {
    buf: &'a [u8],
    pos: usize,
}

impl<'a> LineWalker<'a> {
    /// The buffer being walked.
    pub closed spec fn buffer(&self) -> Seq<u8> {
        self.buf@
    }

    /// The lines not handed out yet, in the order they will come.
    pub closed spec fn rest(&self) -> Seq<Seq<u8>> {
        lines_from(self.buf@, self.pos as int)
    }

    /// The position of the next line lies within the buffer.
    pub closed spec fn wf(&self) -> bool {
        self.pos <= self.buf@.len()
    }

    pub fn new(buf: &'a [u8]) -> (r: Self)
        ensures
            r.wf(),
            r.buffer() == buf@,
            r.rest() == lines(buf@),
    {
        LineWalker { buf, pos: 0 }
    }

    /// Hands out the next line, without its line feed and without a
    /// carriage return just before that.
    pub fn next_line(&mut self) -> (r: Option<&'a [u8]>)
        requires
            old(self).wf(),
        ensures
            final(self).wf(),
            final(self).buffer() == old(self).buffer(),
            match r {
                None => old(self).rest().len() == 0 && final(self).rest() == old(self).rest(),
                Some(l) => old(self).rest().len() > 0 && l@ == old(self).rest()[0]
                    && final(self).rest() == old(self).rest().drop_first(),
            },
    {
        let size = self.buf.len();
        if self.pos >= size {
            return None;
        }
        let start = self.pos;
        let mut end = start;
        while end < size && self.buf[end] != LF
            invariant
                start <= end <= size,
                size == self.buf@.len(),
                forall|k: int| start <= k < end ==> self.buf@[k] != LF,
            decreases size - end,
        {
            end += 1;
        }
        let mut stop = end;
        if end > start && self.buf[end - 1] == CR {
            stop = end - 1;
        }
        proof {
            crate::lines::lemma_line_end_is(self.buf@, start as int, end as int);
            assert(self.buf@.subrange(start as int, stop as int) == strip_cr(
                self.buf@.subrange(start as int, end as int),
            ));
        }
        let line = &self.buf[start..stop];
        if end < size {
            self.pos = end + 1;
        } else {
            self.pos = size;
            assert(lines_from(self.buf@, size as int) == lines_from(self.buf@, end + 1));
        }
        Some(line)
    }
}

/// Walks the lines of a buffer from last to first.
pub struct ReverseLineWalker<'a> {
    buf: &'a [u8],
    end: usize,
}

impl<'a> ReverseLineWalker<'a> {
    /// The buffer being walked.
    pub closed spec fn buffer(&self) -> Seq<u8> {
        self.buf@
    }

    /// The lines not handed out yet, in the order they will come: the lines
    /// of the part of the buffer not walked yet, last first.
    pub closed spec fn rest(&self) -> Seq<Seq<u8>> {
        lines(self.buf@.subrange(0, self.end as int)).reverse()
    }

    /// The end of the part not walked yet lies within the buffer.
    pub closed spec fn wf(&self) -> bool {
        self.end <= self.buf@.len()
    }

    pub fn new(buf: &'a [u8]) -> (r: Self)
        ensures
            r.wf(),
            r.buffer() == buf@,
            r.rest() == lines(buf@).reverse(),
    {
        let r = ReverseLineWalker { buf, end: buf.len() };
        assert(buf@.subrange(0, buf@.len() as int) == buf@);
        r
    }

    /// Hands out the line before those handed out so far, without its line
    /// feed and without a carriage return just before that.
    pub fn next_line(&mut self) -> (r: Option<&'a [u8]>)
        requires
            old(self).wf(),
        ensures
            final(self).wf(),
            final(self).buffer() == old(self).buffer(),
            match r {
                None => old(self).rest().len() == 0 && final(self).rest() == old(self).rest(),
                Some(l) => old(self).rest().len() > 0 && l@ == old(self).rest()[0]
                    && final(self).rest() == old(self).rest().drop_first(),
            },
    {
        let end = self.end;
        if end == 0 {
            assert(self.buf@.subrange(0, 0).len() == 0);
            return None;
        }
        let mut stop = end;
        if self.buf[end - 1] == LF {
            stop = end - 1;
        }
        let mut start = stop;
        while start > 0 && self.buf[start - 1] != LF
            invariant
                start <= stop < end <= self.buf@.len() || start <= stop == end <= self.buf@.len(),
                forall|k: int| start <= k < stop ==> self.buf@[k] != LF,
            decreases start,
        {
            start -= 1;
        }
        let mut cut = stop;
        if cut > start && self.buf[cut - 1] == CR {
            cut = cut - 1;
        }
        let line = &self.buf[start..cut];
        proof {
            let b = self.buf@;
            let c = b.subrange(0, end as int);
            lemma_lines_from_split(c, 0, start as int);
            assert(c.subrange(0, start as int) == b.subrange(0, start as int));
            lemma_last_line(b, start as int, stop as int, end as int);
            assert(line@ == strip_cr(b.subrange(start as int, stop as int)));
            let front = lines(b.subrange(0, start as int));
            assert(lines(c) == front + seq![line@]);
            assert((front + seq![line@]).reverse() =~= seq![line@] + front.reverse());
            assert((seq![line@] + front.reverse()).drop_first() =~= front.reverse());
        }
        self.end = start;
        Some(line)
    }
}

/// Every line of `b` is well-formed UTF-8.
pub open spec fn lines_are_text(b: Seq<u8>) -> bool {
    forall|i: int| 0 <= i < lines(b).len() ==> valid_utf8(#[trigger] lines(b)[i])
}

/// `cb`, called on a text whose bytes are `line`, may return `r`.
pub open spec fn answers<F: FnMut(&str) -> bool>(cb: F, line: Seq<u8>, r: bool) -> bool {
    exists|s: &str| s.spec_bytes() == line && #[trigger] call_ensures(cb, (s,), r)
}

/// Relies on std::str::from_utf8: it succeeds exactly on well-formed UTF-8,
/// and the text it returns holds the same bytes.
#[verifier::external_body]
fn utf8_text<'b>(bytes: &'b [u8]) -> (r: Option<&'b str>)
    ensures
        r.is_some() == valid_utf8(bytes@),
        r matches Some(s) ==> s.spec_bytes() == bytes@,
{
    std::str::from_utf8(bytes).ok()
}

/// Hands each line of `buf` to `cb`, first to last, as text without its line
/// feed or a carriage return just before that, until `cb` returns true.
/// Returns how many lines were handed over: `cb` returned false on each but
/// the last of them, and all were handed over unless it returned true on the
/// last.
pub fn buffer_for_each_line<F>(buf: &[u8], mut cb: F) -> (n: usize)
    where
        F: FnMut(&str) -> bool,
    requires
        lines_are_text(buf@),
        forall|s: &str| call_requires(cb, (s,)),
    ensures
        n <= lines(buf@).len(),
        forall|i: int| 0 <= i < n - 1 ==> answers(cb, #[trigger] lines(buf@)[i], false),
        n < lines(buf@).len() ==> n > 0 && answers(cb, lines(buf@)[n - 1], true),
        n > 0 ==> answers(cb, lines(buf@)[n - 1], true) || answers(cb, lines(buf@)[n - 1], false),
{
    let ghost cb0 = cb;
    let mut walker = LineWalker::new(buf);
    let mut n: usize = 0;
    proof {
        lemma_lines_from_len(buf@, 0);
    }
    loop
        invariant_except_break
            forall|i: int| 0 <= i < n ==> answers(cb0, #[trigger] lines(buf@)[i], false),
        invariant
            lines(buf@).len() <= buf.len(),
            walker.wf(),
            walker.buffer() == buf@,
            lines_are_text(buf@),
            cb == cb0,
            forall|s: &str| call_requires(cb, (s,)),
            n + walker.rest().len() == lines(buf@).len(),
            lines(buf@).subrange(n as int, lines(buf@).len() as int) == walker.rest(),
        ensures
            cb == cb0,
            n <= lines(buf@).len(),
            forall|i: int| 0 <= i < n - 1 ==> answers(cb0, #[trigger] lines(buf@)[i], false),
            n < lines(buf@).len() ==> n > 0 && answers(cb0, lines(buf@)[n - 1], true),
            n > 0 ==> answers(cb0, lines(buf@)[n - 1], true) || answers(cb0, lines(buf@)[n - 1], false),
        decreases walker.rest().len(),
    {
        match walker.next_line() {
            None => {
                break;
            },
            Some(line) => {
                assert(line@ == lines(buf@)[n as int]);
                assert(valid_utf8(line@));
                let text = utf8_text(line);
                n = n + 1;
                match text {
                    Some(t) => {
                        let stop = cb(t);
                        assert(call_ensures(cb0, (t,), stop));
                        if stop {
                            break;
                        }
                    },
                    None => {
                        assert(false);
                    },
                }
            },
        }
    }
    n
}

/// Hands each line of `buf` to `cb`, last to first, as text without its line
/// feed or a carriage return just before that, until `cb` returns true.
/// Returns how many lines were handed over: `cb` returned false on each but
/// the last of them, and all were handed over unless it returned true on the
/// last.
pub fn buffer_for_each_line_reverse<F>(buf: &[u8], mut cb: F) -> (n: usize)
    where
        F: FnMut(&str) -> bool,
    requires
        lines_are_text(buf@),
        forall|s: &str| call_requires(cb, (s,)),
    ensures
        n <= lines(buf@).len(),
        forall|i: int| 0 <= i < n - 1 ==> answers(cb, #[trigger] lines(buf@).reverse()[i], false),
        n < lines(buf@).len() ==> n > 0 && answers(cb, lines(buf@).reverse()[n - 1], true),
        n > 0 ==> answers(cb, lines(buf@).reverse()[n - 1], true) || answers(cb, lines(buf@).reverse()[n - 1], false),
{
    let ghost cb0 = cb;
    let ghost all = lines(buf@).reverse();
    let mut walker = ReverseLineWalker::new(buf);
    let mut n: usize = 0;
    proof {
        lemma_lines_from_len(buf@, 0);
    }
    loop
        invariant_except_break
            forall|i: int| 0 <= i < n ==> answers(cb0, #[trigger] all[i], false),
        invariant
            all == lines(buf@).reverse(),
            all.len() <= buf.len(),
            walker.wf(),
            walker.buffer() == buf@,
            lines_are_text(buf@),
            cb == cb0,
            forall|s: &str| call_requires(cb, (s,)),
            n + walker.rest().len() == all.len(),
            all.subrange(n as int, all.len() as int) == walker.rest(),
        ensures
            cb == cb0,
            n <= all.len(),
            forall|i: int| 0 <= i < n - 1 ==> answers(cb0, #[trigger] all[i], false),
            n < all.len() ==> n > 0 && answers(cb0, all[n - 1], true),
            n > 0 ==> answers(cb0, all[n - 1], true) || answers(cb0, all[n - 1], false),
        decreases walker.rest().len(),
    {
        match walker.next_line() {
            None => {
                break;
            },
            Some(line) => {
                assert(line@ == all[n as int]);
                assert(line@ == lines(buf@)[all.len() - 1 - n]);
                assert(valid_utf8(line@));
                let text = utf8_text(line);
                n = n + 1;
                match text {
                    Some(t) => {
                        let stop = cb(t);
                        assert(call_ensures(cb0, (t,), stop));
                        if stop {
                            break;
                        }
                    },
                    None => {
                        assert(false);
                    },
                }
            },
        }
    }
    n
}

} // verus!
