//! A read position into a growing file that only ever moves across whole
//! lines.
//!
//! The caller reads whatever bytes the file holds from the cursor's offset
//! onwards and hands them over; the cursor takes the complete lines among
//! them and keeps an unterminated tail for a later call.

use vstd::prelude::*;

verus! {

/// The line terminator.
pub const NEWLINE: u8 = 10;

/// Whether `s` holds a line terminator.
pub open spec fn has_newline(s: Seq<u8>) -> bool {
    exists|i: int| 0 <= i < s.len() && s[i] == NEWLINE
}

/// The number of line terminators in `s`.
pub open spec fn newline_count(s: Seq<u8>) -> nat
    decreases s.len(),
{
    if s.len() == 0 {
        0
    } else {
        newline_count(s.drop_last()) + if s.last() == NEWLINE {
            1nat
        } else {
            0nat
        }
    }
}

/// The bytes of `lines`, each followed by a line terminator.
pub open spec fn joined(lines: Seq<Seq<u8>>) -> Seq<u8>
    decreases lines.len(),
{
    if lines.len() == 0 {
        Seq::empty()
    } else {
        joined(lines.drop_last()) + lines.last() + seq![NEWLINE]
    }
}

/// `lines` are the first complete lines of `avail`, at most `max` of them,
/// and all of them unless `max` stopped the taking; `consumed` is the number
/// of bytes they cover, terminators included.
pub open spec fn takes_lines(avail: Seq<u8>, max: nat, lines: Seq<Seq<u8>>, consumed: int) -> bool {
    &&& 0 <= consumed <= avail.len()
    &&& avail.take(consumed) == joined(lines)
    &&& lines.len() <= max
    &&& forall|k: int| 0 <= k < lines.len() ==> !has_newline(#[trigger] lines[k])
    &&& (lines.len() == max || !has_newline(avail.skip(consumed)))
}

/// The contents of a sequence of byte vectors.
pub open spec fn byte_lines(v: Seq<Vec<u8>>) -> Seq<Seq<u8>> {
    v.map_values(|l: Vec<u8>| l@)
}

/// Whether `offset` falls at the start of a line of `file`.
pub open spec fn on_line_boundary(file: Seq<u8>, offset: int) -> bool {
    &&& 0 <= offset <= file.len()
    &&& (offset == 0 || file[offset - 1] == NEWLINE)
}

/// A byte offset into one file.
pub struct Cursor {
    offset: u64,
}

impl Cursor {
    /// The byte offset, as a number.
    pub closed spec fn pos(&self) -> nat {
        self.offset as nat
    }

    /// A cursor at the start of a file.
    pub fn new() -> (r: Cursor)
        ensures
            r.pos() == 0,
    {
        Cursor { offset: 0 }
    }

    /// The byte offset at which the next line starts.
    pub fn offset(&self) -> (r: u64)
        ensures
            r == self.pos(),
    {
        self.offset
    }

    /// Takes up to `max_lines` complete lines from `avail`, the bytes of the
    /// file from the cursor onwards, and moves the cursor past them. Each line
    /// comes without its terminator; an unterminated tail is left in place.
    pub fn read_batch(&mut self, avail: &[u8], max_lines: usize) -> (lines: Vec<Vec<u8>>)
        requires
            old(self).pos() + avail@.len() <= u64::MAX,
        ensures
            final(self).pos() >= old(self).pos(),
            takes_lines(
                avail@,
                max_lines as nat,
                byte_lines(lines@),
                final(self).pos() - old(self).pos(),
            ),
    {
        let mut lines: Vec<Vec<u8>> = Vec::new();
        let mut cur: Vec<u8> = Vec::new();
        let mut start: usize = 0;
        let mut i: usize = 0;
        while i < avail.len() && lines.len() < max_lines
            invariant
                start <= i <= avail@.len(),
                lines.len() <= max_lines,
                avail@.take(start as int) == joined(byte_lines(lines@)),
                cur@ == avail@.subrange(start as int, i as int),
                !has_newline(cur@),
                forall|k: int|
                    0 <= k < lines.len() ==> !has_newline(#[trigger] byte_lines(lines@)[k]),
            decreases avail@.len() - i,
        {
            let b = avail[i];
            if b == NEWLINE {
                proof {
                    let ls = byte_lines(lines@);
                    let nls = ls.push(cur@);
                    assert(nls.drop_last() == ls);
                    assert(avail@.take(i + 1) == avail@.take(start as int) + avail@.subrange(
                        start as int,
                        i as int,
                    ) + seq![NEWLINE]);
                }
                let ghost prev = lines@;
                let ghost cv = cur@;
                let line = cur;
                lines.push(line);
                cur = Vec::new();
                i = i + 1;
                start = i;
                proof {
                    assert(lines@ == prev.push(lines@.last()));
                    assert(byte_lines(lines@) =~= byte_lines(prev).push(cv));
                }
            } else {
                cur.push(b);
                i = i + 1;
                proof {
                    assert(cur@ == avail@.subrange(start as int, i as int));
                }
            }
        }
        proof {
            if lines.len() < max_lines {
                assert(avail@.skip(start as int) == cur@);
            }
        }
        self.offset = self.offset + start as u64;
        lines
    }
}

proof fn lemma_newline_count_concat(a: Seq<u8>, b: Seq<u8>)
    ensures
        newline_count(a + b) == newline_count(a) + newline_count(b),
    decreases b.len(),
{
    if b.len() > 0 {
        assert((a + b).drop_last() =~= a + b.drop_last());
        lemma_newline_count_concat(a, b.drop_last());
    } else {
        assert(a + b =~= a);
    }
}

proof fn lemma_newline_count_zero(s: Seq<u8>)
    ensures
        newline_count(s) == 0 <==> !has_newline(s),
    decreases s.len(),
{
    if s.len() > 0 {
        lemma_newline_count_zero(s.drop_last());
        if has_newline(s.drop_last()) {
            let i = choose|i: int| 0 <= i < s.drop_last().len() && s.drop_last()[i] == NEWLINE;
            assert(s[i] == NEWLINE);
        }
        if has_newline(s) && s.last() != NEWLINE {
            let i = choose|i: int| 0 <= i < s.len() && s[i] == NEWLINE;
            assert(s.drop_last()[i] == NEWLINE);
        }
    }
}

proof fn lemma_joined_newlines(lines: Seq<Seq<u8>>)
    requires
        forall|k: int| 0 <= k < lines.len() ==> !has_newline(#[trigger] lines[k]),
    ensures
        newline_count(joined(lines)) == lines.len(),
        lines.len() > 0 ==> joined(lines).len() > 0 && joined(lines).last() == NEWLINE,
        lines.len() == 0 ==> joined(lines).len() == 0,
    decreases lines.len(),
{
    if lines.len() > 0 {
        let init = lines.drop_last();
        assert forall|k: int| 0 <= k < init.len() implies !has_newline(#[trigger] init[k]) by {
            assert(init[k] == lines[k]);
        }
        lemma_joined_newlines(init);
        lemma_newline_count_zero(lines.last());
        lemma_newline_count_concat(joined(init), lines.last());
        lemma_newline_count_concat(joined(init) + lines.last(), seq![NEWLINE]);
        assert(seq![NEWLINE].drop_last() =~= Seq::<u8>::empty());
        assert(newline_count(Seq::<u8>::empty()) == 0);
        assert(seq![NEWLINE].last() == NEWLINE);
        assert(newline_count(seq![NEWLINE]) == newline_count(seq![NEWLINE].drop_last()) + 1);
        assert(joined(lines) == joined(init) + lines.last() + seq![NEWLINE]);
    }
}

/// Reading never splits a line: after a batch taken from a cursor at the
/// start of a line, the cursor is again at the start of a line, the lines
/// handed out are exactly the line terminators passed over, and where the
/// batch was not cut short by its bound, every completed line of the file has
/// been handed out while an unterminated tail has not.
pub proof fn law_cursor_whole_lines(
    file: Seq<u8>,
    offset: int,
    max: nat,
    lines: Seq<Seq<u8>>,
    consumed: int,
)
    requires
        on_line_boundary(file, offset),
        takes_lines(file.skip(offset), max, lines, consumed),
    ensures
        on_line_boundary(file, offset + consumed),
        newline_count(file.take(offset + consumed)) == newline_count(file.take(offset))
            + lines.len(),
        lines.len() < max ==> newline_count(file.take(offset + consumed)) == newline_count(file),
{
    let rest = file.skip(offset);
    lemma_joined_newlines(lines);
    assert(file.take(offset + consumed) =~= file.take(offset) + rest.take(consumed));
    lemma_newline_count_concat(file.take(offset), rest.take(consumed));
    if consumed > 0 {
        assert(file[offset + consumed - 1] == rest.take(consumed).last());
    }
    if lines.len() < max {
        assert(file =~= file.take(offset + consumed) + rest.skip(consumed));
        lemma_newline_count_zero(rest.skip(consumed));
        lemma_newline_count_concat(file.take(offset + consumed), rest.skip(consumed));
    }
}

/// The number of lines in all of `batches`.
pub open spec fn total_lines(batches: Seq<Seq<Seq<u8>>>) -> nat
    decreases batches.len(),
{
    if batches.len() == 0 {
        0
    } else {
        total_lines(batches.drop_last()) + batches.last().len()
    }
}

/// Whether each of `files` is a prefix of the next: the contents of one
/// file after each of a sequence of writes.
pub open spec fn grows(files: Seq<Seq<u8>>) -> bool {
    forall|k: int|
        0 <= k < files.len() - 1 ==> files[k].len() <= (#[trigger] files[k + 1]).len()
            && files[k + 1].take(files[k].len() as int) == files[k]
}

/// `batches[k]` was read from `files[k]` by a cursor that moved from
/// `offsets[k]` to `offsets[k + 1]`, starting at the start of the file.
pub open spec fn reads_after_writes(
    files: Seq<Seq<u8>>,
    offsets: Seq<int>,
    batches: Seq<Seq<Seq<u8>>>,
    max: nat,
) -> bool {
    &&& files.len() == batches.len()
    &&& offsets.len() == files.len() + 1
    &&& offsets[0] == 0
    &&& grows(files)
    &&& forall|k: int|
        0 <= k < files.len() ==> takes_lines(
            (#[trigger] files[k]).skip(offsets[k]),
            max,
            batches[k],
            offsets[k + 1] - offsets[k],
        )
}

/// Over any sequence of writes, each followed by a read: the cursor only
/// moves forward and always rests at the start of a line, the lines handed
/// out so far are exactly the completed lines before it, and after a read
/// not cut short by its bound every completed line has been handed out while
/// an unterminated tail has not.
pub proof fn law_cursor_over_writes(
    files: Seq<Seq<u8>>,
    offsets: Seq<int>,
    batches: Seq<Seq<Seq<u8>>>,
    max: nat,
)
    requires
        files.len() > 0,
        reads_after_writes(files, offsets, batches, max),
    ensures
        ({
            let n = files.len() - 1;
            let last = files[n];
            &&& offsets[n] <= offsets[n + 1]
            &&& on_line_boundary(last, offsets[n + 1])
            &&& total_lines(batches) == newline_count(last.take(offsets[n + 1]))
            &&& batches[n].len() < max ==> total_lines(batches) == newline_count(last)
        }),
    decreases files.len(),
{
    let n = files.len() - 1;
    let last = files[n];
    if n == 0 {
        assert(on_line_boundary(last, 0));
        law_cursor_whole_lines(last, 0, max, batches[0], offsets[1]);
        assert(last.take(0) =~= Seq::<u8>::empty());
        assert(batches.drop_last().len() == 0);
        assert(total_lines(batches) == total_lines(batches.drop_last()) + batches[0].len());
    } else {
        let fs = files.drop_last();
        let os = offsets.drop_last();
        let bs = batches.drop_last();
        assert forall|k: int| 0 <= k < fs.len() - 1 implies fs[k].len() <= (#[trigger] fs[k
            + 1]).len() && fs[k + 1].take(fs[k].len() as int) == fs[k] by {
            assert(fs[k + 1] == files[k + 1]);
            assert(fs[k] == files[k]);
        }
        assert forall|k: int| 0 <= k < fs.len() implies takes_lines(
            (#[trigger] fs[k]).skip(os[k]),
            max,
            bs[k],
            os[k + 1] - os[k],
        ) by {
            assert(fs[k] == files[k]);
            assert(takes_lines(files[k].skip(offsets[k]), max, batches[k], offsets[k + 1] - offsets[k]));
        }
        law_cursor_over_writes(fs, os, bs, max);
        let prev = files[n - 1];
        let o = offsets[n];
        assert(fs[n - 1] == prev);
        assert(os[n] == o);
        assert(bs.last() == batches[n - 1]);
        assert(prev.len() <= last.len() && last.take(prev.len() as int) == prev);
        assert(on_line_boundary(prev, o));
        assert(last.take(o) =~= prev.take(o)) by {
            assert forall|i: int| 0 <= i < o implies last[i] == prev[i] by {
                assert(last.take(prev.len() as int)[i] == last[i]);
            }
        }
        if o > 0 {
            assert(last.take(prev.len() as int)[o - 1] == last[o - 1]);
        }
        assert(total_lines(batches) == total_lines(bs) + batches[n].len());
        law_cursor_whole_lines(last, o, max, batches[n], offsets[n + 1] - o);
    }
}

} // verus!
