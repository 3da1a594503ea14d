use vstd::prelude::*;

verus! {

pub const LF: u8 = 10;

pub const CR: u8 = 13;

/// Index of the first line feed at or after `pos`, or the length of `b`.
pub open spec fn line_end(b: Seq<u8>, pos: int) -> int
    decreases b.len() - pos,
{
    if pos >= b.len() || pos < 0 || b[pos] == LF {
        pos
    } else {
        line_end(b, pos + 1)
    }
}

/// A line without its trailing carriage return, if it has one.
pub open spec fn strip_cr(s: Seq<u8>) -> Seq<u8> {
    if s.len() > 0 && s.last() == CR {
        s.drop_last()
    } else {
        s
    }
}

/// The logical lines of `b` that start at or after `pos`, first to last.
pub open spec fn lines_from(b: Seq<u8>, pos: int) -> Seq<Seq<u8>>
    decreases b.len() + 1 - pos,
    via lines_from_decreases
{
    if pos >= b.len() || pos < 0 {
        seq![]
    } else {
        let e = line_end(b, pos);
        seq![strip_cr(b.subrange(pos, e))] + lines_from(b, e + 1)
    }
}

#[via_fn]
proof fn lines_from_decreases(b: Seq<u8>, pos: int) {
    if 0 <= pos < b.len() {
        lemma_line_end_bounds(b, pos);
    }
}

/// The logical lines of `b`, first to last.
pub open spec fn lines(b: Seq<u8>) -> Seq<Seq<u8>> {
    lines_from(b, 0)
}

proof fn lemma_line_end_bounds(b: Seq<u8>, pos: int)
    requires
        0 <= pos <= b.len(),
    ensures
        pos <= line_end(b, pos) <= b.len(),
        line_end(b, pos) < b.len() ==> b[line_end(b, pos)] == LF,
        forall|k: int| pos <= k < line_end(b, pos) ==> b[k] != LF,
    decreases b.len() - pos,
{
    if pos < b.len() && b[pos] != LF {
        lemma_line_end_bounds(b, pos + 1);
    }
}

/// `line_end` is the first line feed at or after `pos`: any index `e` past
/// `pos` that has no line feed before it, and is a line feed or the end, is it.
pub proof fn lemma_line_end_is(b: Seq<u8>, pos: int, e: int)
    requires
        0 <= pos <= e <= b.len(),
        e == b.len() || b[e] == LF,
        forall|k: int| pos <= k < e ==> b[k] != LF,
    ensures
        line_end(b, pos) == e,
    decreases e - pos,
{
    if pos < e {
        lemma_line_end_is(b, pos + 1, e);
    }
}

/// Lines that start before a line boundary `s` are those of the prefix that
/// ends there: the lines of `b` from `p` are those of `b[..s]` from `p`,
/// then those of `b` from `s`.
pub proof fn lemma_lines_from_split(b: Seq<u8>, p: int, s: int)
    requires
        0 <= p <= s <= b.len(),
        p < s ==> b[s - 1] == LF,
    ensures
        lines_from(b, p) == lines_from(b.subrange(0, s), p) + lines_from(b, s),
    decreases s - p,
{
    let c = b.subrange(0, s);
    if p == s {
        assert(lines_from(c, p) == Seq::<Seq<u8>>::empty());
        assert(lines_from(b, p) == lines_from(c, p) + lines_from(b, s));
    } else {
        lemma_line_end_bounds(b, p);
        let e = line_end(b, p);
        assert(e <= s - 1) by {
            if e > s - 1 {
                assert(b[s - 1] != LF);
            }
        }
        lemma_line_end_is(c, p, e);
        lemma_lines_from_split(b, e + 1, s);
        assert(c.subrange(p, e) == b.subrange(p, e));
        assert(lines_from(b, p) == seq![strip_cr(b.subrange(p, e))] + lines_from(b, e + 1));
        assert(lines_from(c, p) == seq![strip_cr(c.subrange(p, e))] + lines_from(c, e + 1));
        assert(lines_from(b, p) == lines_from(c, p) + lines_from(b, s));
    }
}

/// A stretch `b[start..stop]` free of line feeds, ending the buffer `b[..end]`
/// either at its end or just before a final line feed, is that prefix's one
/// line from `start`.
pub proof fn lemma_last_line(b: Seq<u8>, start: int, stop: int, end: int)
    requires
        0 <= start <= stop <= end <= b.len(),
        start < end,
        stop == end || (stop == end - 1 && b[stop] == LF),
        forall|k: int| start <= k < stop ==> b[k] != LF,
    ensures
        lines_from(b.subrange(0, end), start) == seq![strip_cr(b.subrange(start, stop))],
{
    let c = b.subrange(0, end);
    lemma_line_end_is(c, start, stop);
    assert(c.subrange(start, stop) == b.subrange(start, stop));
    assert(lines_from(c, stop + 1) == Seq::<Seq<u8>>::empty());
    assert(lines_from(c, start) == seq![strip_cr(c.subrange(start, stop))] + lines_from(c, stop + 1));
}

/// Each line takes at least one byte of the buffer.
pub proof fn lemma_lines_from_len(b: Seq<u8>, p: int)
    requires
        0 <= p,
    ensures
        lines_from(b, p).len() <= if p <= b.len() { b.len() - p } else { 0 },
    decreases b.len() + 1 - p,
{
    if p < b.len() {
        lemma_line_end_bounds(b, p);
        lemma_lines_from_len(b, line_end(b, p) + 1);
    }
}

/// `b` without each carriage return that a line feed or the end of `b`
/// follows.
pub open spec fn drop_line_crs(b: Seq<u8>) -> Seq<u8>
    decreases b.len(),
{
    if b.len() == 0 {
        b
    } else if b[0] == CR && (b.len() == 1 || b[1] == LF) {
        drop_line_crs(b.drop_first())
    } else {
        seq![b[0]] + drop_line_crs(b.drop_first())
    }
}

/// `b` with its line-ending carriage returns dropped and, where it does not
/// end with a line feed, one added.
pub open spec fn with_lf_endings(b: Seq<u8>) -> Seq<u8> {
    if b.len() > 0 && b.last() != LF {
        drop_line_crs(b).push(LF)
    } else {
        drop_line_crs(b)
    }
}

/// Each of `ls` followed by a line feed, one after another.
pub open spec fn join_lines(ls: Seq<Seq<u8>>) -> Seq<u8>
    decreases ls.len(),
{
    if ls.len() == 0 {
        Seq::empty()
    } else {
        ls[0] + seq![LF] + join_lines(ls.drop_first())
    }
}

proof fn lemma_drop_line_crs_append(x: Seq<u8>, y: Seq<u8>)
    requires
        x.len() > 0,
        x.last() == LF,
    ensures
        drop_line_crs(x + y) == drop_line_crs(x) + drop_line_crs(y),
    decreases x.len(),
{
    let xy = x + y;
    assert(xy.drop_first() == x.drop_first() + y);
    if x.len() == 1 {
        assert(x.drop_first() == Seq::<u8>::empty());
        assert(drop_line_crs(x.drop_first()) == Seq::<u8>::empty());
        assert(x.drop_first() + y == y);
        assert(drop_line_crs(x) == seq![x[0]]);
    } else {
        lemma_drop_line_crs_append(x.drop_first(), y);
        assert(xy[1] == x[1]);
    }
}

/// On a stretch free of line feeds, only a final carriage return goes, with
/// or without a line feed after it.
proof fn lemma_drop_line_crs_one_line(s: Seq<u8>)
    requires
        forall|k: int| 0 <= k < s.len() ==> s[k] != LF,
    ensures
        drop_line_crs(s) == strip_cr(s),
        drop_line_crs(s.push(LF)) == strip_cr(s).push(LF),
    decreases s.len(),
{
    assert(drop_line_crs(seq![LF]) == seq![LF]) by {
        let one = seq![LF];
        assert(one[0] == LF);
        assert(one.drop_first() == Seq::<u8>::empty());
        assert(drop_line_crs(one.drop_first()) == Seq::<u8>::empty());
        assert(seq![one[0]] + Seq::<u8>::empty() == one);
    }
    if s.len() == 0 {
        assert(s.push(LF) == seq![LF]);
    } else {
        let t = s.drop_first();
        lemma_drop_line_crs_one_line(t);
        assert(s.push(LF).drop_first() == t.push(LF));
        if t.len() == 0 {
            assert(s == seq![s[0]]);
            assert(t.push(LF) == seq![LF]);
            assert(s.push(LF)[1] == LF);
            if s[0] == CR {
                assert(strip_cr(s) == Seq::<u8>::empty());
            } else {
                assert(strip_cr(s) == s);
                assert(seq![s[0]] + Seq::<u8>::empty() == s);
            }
        } else {
            assert(s[1] != LF);
            assert(s.push(LF)[1] == s[1]);
            assert(s.last() == t.last());
            if t.last() == CR {
                assert(seq![s[0]] + t.drop_last() == s.drop_last());
                assert(seq![s[0]] + t.drop_last().push(LF) == s.drop_last().push(LF));
            } else {
                assert(seq![s[0]] + t == s);
                assert(seq![s[0]] + t.push(LF) == s.push(LF));
            }
        }
    }
}

proof fn lemma_join_lines_from(b: Seq<u8>, p: int)
    requires
        0 <= p <= b.len(),
    ensures
        join_lines(lines_from(b, p)) == with_lf_endings(b.subrange(p, b.len() as int)),
    decreases b.len() - p,
{
    let tail = b.subrange(p, b.len() as int);
    if p == b.len() {
        assert(tail == Seq::<u8>::empty());
    } else {
        lemma_line_end_bounds(b, p);
        let e = line_end(b, p);
        let seg = b.subrange(p, e);
        let ls = lines_from(b, p);
        assert(ls.drop_first() == lines_from(b, e + 1));
        lemma_drop_line_crs_one_line(seg);
        if e < b.len() {
            let rest = b.subrange(e + 1, b.len() as int);
            lemma_join_lines_from(b, e + 1);
            assert(tail == seg.push(LF) + rest);
            lemma_drop_line_crs_append(seg.push(LF), rest);
            if rest.len() > 0 {
                assert(tail.last() == rest.last());
            } else {
                assert(rest == Seq::<u8>::empty());
                assert(tail == seg.push(LF));
            }
            assert(join_lines(ls) == strip_cr(seg) + seq![LF] + join_lines(lines_from(b, e + 1)));
            assert(strip_cr(seg) + seq![LF] == strip_cr(seg).push(LF));
        } else {
            assert(tail == seg);
            assert(lines_from(b, e + 1) == Seq::<Seq<u8>>::empty());
            assert(join_lines(ls.drop_first()) == Seq::<u8>::empty());
            assert(tail.last() != LF);
            assert(strip_cr(seg) + seq![LF] + Seq::<u8>::empty() == strip_cr(seg).push(LF));
        }
    }
}

/// The pieces of `b` from `pos` on between line feeds, all of them: one more
/// than there are line feeds.
pub open spec fn pieces_from(b: Seq<u8>, pos: int) -> Seq<Seq<u8>>
    decreases b.len() - pos,
    via pieces_from_decreases
{
    if pos < 0 || pos >= b.len() {
        seq![Seq::empty()]
    } else {
        let e = line_end(b, pos);
        if e < b.len() {
            seq![b.subrange(pos, e)] + pieces_from(b, e + 1)
        } else {
            seq![b.subrange(pos, e)]
        }
    }
}

#[via_fn]
proof fn pieces_from_decreases(b: Seq<u8>, pos: int) {
    if 0 <= pos < b.len() {
        lemma_line_end_bounds(b, pos);
    }
}

/// `ls` one after another, with a line feed between each two.
pub open spec fn join_with_lf(ls: Seq<Seq<u8>>) -> Seq<u8>
    decreases ls.len(),
{
    if ls.len() == 0 {
        Seq::empty()
    } else if ls.len() == 1 {
        ls[0]
    } else {
        ls[0] + seq![LF] + join_with_lf(ls.drop_first())
    }
}

/// The pieces of `b` between line feeds, each without a final carriage
/// return, put back together with line feeds.
pub open spec fn rejoined_pieces(b: Seq<u8>) -> Seq<u8> {
    join_with_lf(pieces_from(b, 0).map_values(|l: Seq<u8>| strip_cr(l)))
}

proof fn lemma_rejoined_pieces_from(b: Seq<u8>, p: int)
    requires
        0 <= p <= b.len(),
    ensures
        pieces_from(b, p).len() > 0,
        join_with_lf(pieces_from(b, p).map_values(|l: Seq<u8>| strip_cr(l)))
            == drop_line_crs(b.subrange(p, b.len() as int)),
    decreases b.len() - p,
{
    let tail = b.subrange(p, b.len() as int);
    let ps = pieces_from(b, p);
    let ms = ps.map_values(|l: Seq<u8>| strip_cr(l));
    if p == b.len() {
        assert(tail == Seq::<u8>::empty());
        assert(ms =~= seq![Seq::<u8>::empty()]);
        assert(join_with_lf(ms) == Seq::<u8>::empty());
    } else {
        lemma_line_end_bounds(b, p);
        let e = line_end(b, p);
        let seg = b.subrange(p, e);
        lemma_drop_line_crs_one_line(seg);
        if e < b.len() {
            let rest = b.subrange(e + 1, b.len() as int);
            lemma_rejoined_pieces_from(b, e + 1);
            let rs = pieces_from(b, e + 1).map_values(|l: Seq<u8>| strip_cr(l));
            assert(ms =~= seq![strip_cr(seg)] + rs);
            assert(ms.drop_first() =~= rs);
            assert(tail == seg.push(LF) + rest);
            lemma_drop_line_crs_append(seg.push(LF), rest);
            assert(strip_cr(seg) + seq![LF] == strip_cr(seg).push(LF));
        } else {
            assert(tail == seg);
            assert(ms =~= seq![strip_cr(seg)]);
        }
    }
}

proof fn lemma_join_lines_trailing(ls: Seq<Seq<u8>>)
    requires
        ls.len() > 0,
    ensures
        join_lines(ls) == join_with_lf(ls).push(LF),
    decreases ls.len(),
{
    if ls.len() == 1 {
        assert(ls.drop_first().len() == 0);
        assert(join_lines(ls.drop_first()) == Seq::<u8>::empty());
        assert(ls[0] + seq![LF] + Seq::<u8>::empty() == ls[0].push(LF));
    } else {
        lemma_join_lines_trailing(ls.drop_first());
        assert(ls[0] + seq![LF] + join_with_lf(ls.drop_first()).push(LF)
            == (ls[0] + seq![LF] + join_with_lf(ls.drop_first())).push(LF));
    }
}

/// Putting back the lines that a reverse walk gives into their first-to-last
/// order, each with a line feed after it, rebuilds the buffer up to the
/// carriage returns dropped from line ends and a line feed added at the end.
/// Put otherwise: the buffer's pieces between line feeds, each without a final
/// carriage return, joined by line feeds, are those lines each followed by a
/// line feed where the buffer is empty or ends with one, and else those lines
/// with a line feed between each two.
pub proof fn lemma_reverse_lines_rebuild(b: Seq<u8>)
    ensures
        join_lines(lines(b).reverse().reverse()) == with_lf_endings(b),
        b.len() == 0 || b.last() == LF ==> join_lines(lines(b).reverse().reverse())
            == rejoined_pieces(b),
        b.len() > 0 && b.last() != LF ==> join_with_lf(lines(b).reverse().reverse())
            == rejoined_pieces(b),
{
    assert(lines(b).reverse().reverse() =~= lines(b));
    lemma_join_lines_from(b, 0);
    assert(b.subrange(0, b.len() as int) == b);
    lemma_rejoined_pieces_from(b, 0);
    if b.len() > 0 && b.last() != LF {
        assert(lines(b).len() > 0);
        lemma_join_lines_trailing(lines(b));
        assert(join_with_lf(lines(b)).push(LF) == drop_line_crs(b).push(LF));
        assert(join_with_lf(lines(b)) == join_with_lf(lines(b)).push(LF).drop_last());
        assert(drop_line_crs(b) == drop_line_crs(b).push(LF).drop_last());
    }
}

} // verus!
