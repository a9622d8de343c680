//! The mathematical model of reverse line scanning: which byte sequences a
//! backward scan of a file emits, and in which order.
//!
//! A line terminator is the byte `\n` (0x0A), optionally preceded by `\r`
//! (0x0D). Scanning walks from the tail of the file toward its head; the
//! line delimited by the last terminator is emitted first.

use vstd::prelude::*;

verus! {

/// The line-feed byte `\n`.
pub const NL: u8 = 10;

/// The carriage-return byte `\r`.
pub const CR: u8 = 13;

/// The position of the last `\n` in `s`, or `-1` if `s` contains none.
pub open spec fn last_nl(s: Seq<u8>) -> int
    decreases s.len(),
{
    if s.len() == 0 {
        -1
    } else if s.last() == NL {
        s.len() - 1
    } else {
        last_nl(s.drop_last())
    }
}

/// `last_nl` stays within `[-1, s.len())`.
pub proof fn lemma_last_nl_bounds(s: Seq<u8>)
    ensures
        -1 <= last_nl(s) < s.len(),
    decreases s.len(),
{
    if s.len() > 0 && s.last() != NL {
        lemma_last_nl_bounds(s.drop_last());
    }
}

/// What `last_nl` finds is a `\n`, and nothing after it is one.
pub proof fn lemma_last_nl_found(s: Seq<u8>)
    ensures
        last_nl(s) >= 0 ==> s[last_nl(s)] == NL,
        forall|j: int| last_nl(s) < j < s.len() ==> s[j] != NL,
    decreases s.len(),
{
    lemma_last_nl_bounds(s);
    if s.len() > 0 && s.last() != NL {
        lemma_last_nl_bounds(s.drop_last());
        lemma_last_nl_found(s.drop_last());
        if last_nl(s) >= 0 {
            assert(s[last_nl(s)] == s.drop_last()[last_nl(s)]);
        }
        assert forall|j: int| last_nl(s) < j < s.len() implies s[j] != NL by {
            if j < s.len() - 1 {
                assert(s.drop_last()[j] == s[j]);
            }
        }
    }
}

/// A `\n` at position `i` with none after it is exactly what `last_nl` finds.
pub proof fn lemma_last_nl_unique(s: Seq<u8>, i: int)
    requires
        0 <= i < s.len(),
        s[i] == NL,
        forall|j: int| i < j < s.len() ==> s[j] != NL,
    ensures
        last_nl(s) == i,
    decreases s.len(),
{
    if i < s.len() - 1 {
        assert(s.last() != NL);
        assert(s.drop_last()[i] == s[i]);
        assert forall|j: int| i < j < s.drop_last().len() implies s.drop_last()[j] != NL by {
            assert(s.drop_last()[j] == s[j]);
        }
        lemma_last_nl_unique(s.drop_last(), i);
    }
}

/// How `last_nl` looks through a concatenation: a `\n` in `b` wins; absent
/// one, the search continues in `a`.
pub proof fn lemma_last_nl_add(a: Seq<u8>, b: Seq<u8>)
    ensures
        last_nl(b) >= 0 ==> last_nl(a + b) == a.len() + last_nl(b),
        last_nl(b) < 0 ==> last_nl(a + b) == last_nl(a),
    decreases b.len(),
{
    lemma_last_nl_bounds(b);
    if b.len() == 0 {
        assert(a + b =~= a);
    } else {
        assert((a + b).last() == b.last());
        if b.last() != NL {
            assert((a + b).drop_last() =~= a + b.drop_last());
            lemma_last_nl_add(a, b.drop_last());
        }
    }
}

/// Strips the terminator remnants from an assembled line: one leading `\n`
/// if present, then one trailing `\r` if present. Neither is stripped more
/// than once, and an empty sequence is left alone.
pub open spec fn trim_line(s: Seq<u8>) -> Seq<u8> {
    let t = if s.len() > 0 && s[0] == NL {
        s.subrange(1, s.len() as int)
    } else {
        s
    };
    if t.len() > 0 && t.last() == CR {
        t.drop_last()
    } else {
        t
    }
}

/// The lines of `s` from last to first, when `s` is the file content to the
/// left of a line terminator (so the scan owes at least one more line, even
/// if `s` is empty). The line after the last `\n` of `s` comes first; what
/// precedes that `\n` is scanned in turn.
pub open spec fn rev_lines_from(s: Seq<u8>) -> Seq<Seq<u8>>
    decreases s.len(),
    via rev_lines_from_decreases
{
    let p = last_nl(s);
    if p < 0 {
        seq![trim_line(s)]
    } else {
        seq![trim_line(s.subrange(p + 1, s.len() as int))] + rev_lines_from(s.subrange(0, p))
    }
}

#[via_fn]
proof fn rev_lines_from_decreases(s: Seq<u8>) {
    lemma_last_nl_bounds(s);
}

/// The lines of a whole file, from last to first. An empty file has no
/// lines; any other file has at least one.
pub open spec fn rev_lines(s: Seq<u8>) -> Seq<Seq<u8>> {
    if s.len() == 0 {
        Seq::<Seq<u8>>::empty()
    } else {
        rev_lines_from(s)
    }
}

/// A payload that can be stored as one line: it contains no `\n` (which
/// would split it) and does not end in `\r` (which terminator stripping
/// would remove).
pub open spec fn plain_line(s: Seq<u8>) -> bool {
    &&& last_nl(s) < 0
    &&& s.len() > 0 ==> s.last() != CR
}

/// The file whose lines, first to last, are `ls`, separated by a bare `\n`
/// and with no trailing terminator.
pub open spec fn join_lf(ls: Seq<Seq<u8>>) -> Seq<u8>
    decreases ls.len(),
{
    if ls.len() == 0 {
        Seq::<u8>::empty()
    } else if ls.len() == 1 {
        ls[0]
    } else {
        join_lf(ls.drop_last()) + seq![NL] + ls.last()
    }
}

/// The file whose lines, first to last, are `ls`, separated by `\r\n` and
/// with no trailing terminator.
pub open spec fn join_crlf(ls: Seq<Seq<u8>>) -> Seq<u8>
    decreases ls.len(),
{
    if ls.len() == 0 {
        Seq::<u8>::empty()
    } else if ls.len() == 1 {
        ls[0]
    } else {
        join_crlf(ls.drop_last()) + seq![CR, NL] + ls.last()
    }
}

/// A line payload free of `\n` and of a trailing `\r` passes through
/// terminator stripping unchanged.
pub proof fn lemma_trim_plain(s: Seq<u8>)
    requires
        plain_line(s),
    ensures
        trim_line(s) == s,
{
    lemma_last_nl_found(s);
}

/// Stripping a stored `...X\r` terminator remnant yields the payload
/// `...X`: the `\r` goes, and nothing else.
pub proof fn lemma_trim_cr(s: Seq<u8>)
    requires
        plain_line(s),
    ensures
        trim_line(s + seq![CR]) == s,
{
    lemma_last_nl_found(s);
    if s.len() > 0 {
        assert((s + seq![CR])[0] == s[0]);
    }
    assert((s + seq![CR]).last() == CR);
    assert((s + seq![CR]).drop_last() =~= s);
}

proof fn lemma_last_nl_single_nl()
    ensures
        last_nl(seq![NL]) == 0,
        last_nl(seq![CR]) < 0,
        last_nl(seq![CR, NL]) == 1,
{
    assert(seq![NL].last() == NL);
    assert(seq![CR].last() == CR);
    assert(seq![CR].drop_last() =~= Seq::<u8>::empty());
    assert(last_nl(Seq::<u8>::empty()) == -1);
    assert(seq![CR, NL].last() == NL);
}

proof fn lemma_rev_lines_from_join_lf(ls: Seq<Seq<u8>>)
    requires
        ls.len() >= 1,
        forall|i: int| 0 <= i < ls.len() ==> plain_line(#[trigger] ls[i]),
    ensures
        rev_lines_from(join_lf(ls)) == ls.reverse(),
    decreases ls.len(),
{
    if ls.len() == 1 {
        lemma_trim_plain(ls[0]);
        assert(rev_lines_from(join_lf(ls)) =~= ls.reverse());
    } else {
        let a = join_lf(ls.drop_last());
        let b = ls.last();
        let j = join_lf(ls);
        assert(j == a + seq![NL] + b);
        lemma_last_nl_single_nl();
        lemma_last_nl_add(a, seq![NL]);
        lemma_last_nl_add(a + seq![NL], b);
        assert(last_nl(j) == a.len());
        lemma_last_nl_bounds(j);
        assert(j.subrange(a.len() as int + 1, j.len() as int) =~= b);
        assert(j.subrange(0, a.len() as int) =~= a);
        lemma_trim_plain(b);
        assert(forall|i: int|
            0 <= i < ls.drop_last().len() ==> plain_line(#[trigger] ls.drop_last()[i]));
        lemma_rev_lines_from_join_lf(ls.drop_last());
        assert(rev_lines_from(j) == seq![b] + ls.drop_last().reverse());
        assert(seq![b] + ls.drop_last().reverse() =~= ls.reverse());
    }
}

/// Round-trip completeness over `\n`-terminated lines: a file written as
/// lines `L1 \n L2 \n ... \n Ln`, with no trailing terminator, scans back
/// as exactly `Ln, ..., L1`.
pub proof fn lemma_round_trip_lf(ls: Seq<Seq<u8>>)
    requires
        ls.len() >= 1,
        forall|i: int| 0 <= i < ls.len() ==> plain_line(#[trigger] ls[i]),
        join_lf(ls).len() > 0,
    ensures
        rev_lines(join_lf(ls)) == ls.reverse(),
{
    lemma_rev_lines_from_join_lf(ls);
}

/// What a trailing terminator does to the round trip: the scan reads the
/// file's end as the end of one more, empty, line, so that line is emitted
/// first and the stored lines follow in reverse order.
pub proof fn lemma_round_trip_lf_trailing(ls: Seq<Seq<u8>>)
    requires
        ls.len() >= 1,
        forall|i: int| 0 <= i < ls.len() ==> plain_line(#[trigger] ls[i]),
    ensures
        rev_lines(join_lf(ls) + seq![NL]) == seq![Seq::<u8>::empty()] + ls.reverse(),
{
    let s = join_lf(ls) + seq![NL];
    assert(s.last() == NL);
    assert(last_nl(s) == s.len() - 1);
    assert(s.subrange(s.len() as int, s.len() as int) =~= Seq::<u8>::empty());
    assert(s.subrange(0, s.len() - 1) =~= join_lf(ls));
    lemma_rev_lines_from_join_lf(ls);
    assert(rev_lines(s) =~= seq![Seq::<u8>::empty()] + ls.reverse());
}

proof fn lemma_rev_lines_from_join_crlf_cr(ls: Seq<Seq<u8>>)
    requires
        ls.len() >= 1,
        forall|i: int| 0 <= i < ls.len() ==> plain_line(#[trigger] ls[i]),
    ensures
        rev_lines_from(join_crlf(ls) + seq![CR]) == ls.reverse(),
    decreases ls.len(),
{
    lemma_last_nl_single_nl();
    if ls.len() == 1 {
        let s = join_crlf(ls) + seq![CR];
        lemma_last_nl_add(ls[0], seq![CR]);
        lemma_trim_cr(ls[0]);
        assert(rev_lines_from(s) =~= ls.reverse());
    } else {
        let a = join_crlf(ls.drop_last());
        let b = ls.last();
        let s = join_crlf(ls) + seq![CR];
        assert(s =~= (a + seq![CR, NL]) + (b + seq![CR]));
        lemma_last_nl_add(b, seq![CR]);
        lemma_last_nl_add(a, seq![CR, NL]);
        lemma_last_nl_add(a + seq![CR, NL], b + seq![CR]);
        assert(last_nl(s) == a.len() + 1);
        lemma_last_nl_bounds(s);
        assert(s.subrange(a.len() as int + 2, s.len() as int) =~= b + seq![CR]);
        assert(s.subrange(0, a.len() as int + 1) =~= a + seq![CR]);
        lemma_trim_cr(b);
        assert(forall|i: int|
            0 <= i < ls.drop_last().len() ==> plain_line(#[trigger] ls.drop_last()[i]));
        lemma_rev_lines_from_join_crlf_cr(ls.drop_last());
        assert(rev_lines_from(s) == seq![b] + ls.drop_last().reverse());
        assert(seq![b] + ls.drop_last().reverse() =~= ls.reverse());
    }
}

/// Terminator stripping over `\r\n`: a file written as lines
/// `L1 \r\n L2 \r\n ... \r\n Ln`, with no trailing terminator, scans back
/// as exactly `Ln, ..., L1` — every `\r\n` is stripped whole from the
/// payloads.
pub proof fn lemma_round_trip_crlf(ls: Seq<Seq<u8>>)
    requires
        ls.len() >= 1,
        forall|i: int| 0 <= i < ls.len() ==> plain_line(#[trigger] ls[i]),
        join_crlf(ls).len() > 0,
    ensures
        rev_lines(join_crlf(ls)) == ls.reverse(),
{
    lemma_last_nl_single_nl();
    if ls.len() == 1 {
        lemma_trim_plain(ls[0]);
        assert(rev_lines(join_crlf(ls)) =~= ls.reverse());
    } else {
        let a = join_crlf(ls.drop_last());
        let b = ls.last();
        let j = join_crlf(ls);
        assert(j =~= (a + seq![CR, NL]) + b);
        lemma_last_nl_add(a, seq![CR, NL]);
        lemma_last_nl_add(a + seq![CR, NL], b);
        assert(last_nl(j) == a.len() + 1);
        lemma_last_nl_bounds(j);
        assert(j.subrange(a.len() as int + 2, j.len() as int) =~= b);
        assert(j.subrange(0, a.len() as int + 1) =~= a + seq![CR]);
        lemma_trim_plain(b);
        assert(forall|i: int|
            0 <= i < ls.drop_last().len() ==> plain_line(#[trigger] ls.drop_last()[i]));
        lemma_rev_lines_from_join_crlf_cr(ls.drop_last());
        assert(rev_lines_from(j) == seq![b] + ls.drop_last().reverse());
        assert(seq![b] + ls.drop_last().reverse() =~= ls.reverse());
    }
}

} // verus!
