//! Parsing of log lines into structured entries.
//!
//! An access-log line holds an entry of the shape
//! `<ip> - - [<timestamp>] "<method> <path> <protocol>" <status> <size>`,
//! possibly after other text and followed by further fields; an error-log
//! line has the shape `[<timestamp>] [<level>] [<any>] [<any>] <message>`,
//! the message ending at a line terminator. A line of another shape still
//! gives an entry, with placeholder fields.
//!
//! The grammar is deterministic: the ip is the last word before the first
//! ` - - [`; a timestamp or bracketed part ends at the first `]`, a request
//! at the first `"`; none of them holds a line terminator; status and size
//! are ASCII digits. A line whose entry would need a later ` - - [`, a `]`
//! inside a timestamp or a `"` inside a request does not have the shape.

use crate::entry::{unknown, AccessLogEntry, LogEntry, LogKind, LogType};
use crate::timestamp::{first_stamp, format_timestamp, normalized, rendered_stamp, CANONICAL_FORMAT};
use vstd::prelude::*;
use vstd::std_specs::iter::IteratorSpec;

verus! {

/// Unicode whitespace (the `White_Space` property).
pub open spec fn is_space(c: char) -> bool {
    ||| c == ' '
    ||| '\t' <= c <= '\r'
    ||| c == '\u{85}'
    ||| c == '\u{A0}'
    ||| c == '\u{1680}'
    ||| '\u{2000}' <= c <= '\u{200A}'
    ||| c == '\u{2028}'
    ||| c == '\u{2029}'
    ||| c == '\u{202F}'
    ||| c == '\u{205F}'
    ||| c == '\u{3000}'
}

/// Whether `c` is whitespace.
fn space_char(c: char) -> (r: bool)
    ensures
        r == is_space(c),
{
    c == ' ' || ('\t' <= c && c <= '\r') || c == '\u{85}' || c == '\u{A0}' || c == '\u{1680}'
        || ('\u{2000}' <= c && c <= '\u{200A}') || c == '\u{2028}' || c == '\u{2029}'
        || c == '\u{202F}' || c == '\u{205F}' || c == '\u{3000}'
}

/// A non-empty run of non-whitespace characters.
pub open spec fn is_token(s: Seq<char>) -> bool {
    s.len() > 0 && forall|i: int| 0 <= i < s.len() ==> !is_space(#[trigger] s[i])
}

/// A non-empty run of decimal digits.
pub open spec fn is_number(s: Seq<char>) -> bool {
    s.len() > 0 && forall|i: int| 0 <= i < s.len() ==> '0' <= #[trigger] s[i] <= '9'
}

/// The part of `s` before its first `c`, and the part after that `c`.
pub open spec fn split_first(s: Seq<char>, c: char) -> Option<(Seq<char>, Seq<char>)>
    decreases s.len(),
{
    if s.len() == 0 {
        None
    } else if s[0] == c {
        Some((Seq::empty(), s.skip(1)))
    } else {
        match split_first(s.skip(1), c) {
            Some((x, r)) => Some((seq![s[0]] + x, r)),
            None => None,
        }
    }
}

/// What follows `p` in `s`, where `s` starts with `p`.
pub open spec fn strip_prefix(s: Seq<char>, p: Seq<char>) -> Option<Seq<char>> {
    if p.len() <= s.len() && s.take(p.len() as int) == p {
        Some(s.skip(p.len() as int))
    } else {
        None
    }
}

/// `x`, then `c`, then `rest`.
pub open spec fn cut(x: Seq<char>, c: char, rest: Seq<char>) -> Seq<char> {
    x + seq![c] + rest
}

/// Where a known format reads the raw timestamp `ts`, `shown` is chrono's
/// canonical rendering of it.
pub open spec fn renders(ts: Seq<char>, shown: Seq<char>) -> bool {
    first_stamp(ts) matches Some(d) ==> rendered_stamp(d, CANONICAL_FORMAT@) == Some(shown)
}

/// The marker between the ip and the timestamp of an access line.
pub open spec fn access_mark() -> Seq<char> {
    seq![' ', '-', ' ', '-', ' ', '[']
}

/// The part of `s` before the first occurrence of `w`, and the part after it.
pub open spec fn split_first_seq(s: Seq<char>, w: Seq<char>) -> Option<(Seq<char>, Seq<char>)>
    decreases s.len(),
{
    match strip_prefix(s, w) {
        Some(r) => Some((Seq::empty(), r)),
        None => if s.len() == 0 {
            None
        } else {
            match split_first_seq(s.skip(1), w) {
                Some((x, r)) => Some((seq![s[0]] + x, r)),
                None => None,
            }
        },
    }
}

/// The last word of `s`: its longest suffix without whitespace.
pub open spec fn trailing_word(s: Seq<char>) -> Seq<char>
    decreases s.len(),
{
    if s.len() == 0 || is_space(s.last()) {
        Seq::empty()
    } else {
        trailing_word(s.drop_last()).push(s.last())
    }
}

/// The longest prefix of `s` made of decimal digits.
pub open spec fn leading_digits(s: Seq<char>) -> Seq<char>
    decreases s.len(),
{
    if s.len() > 0 && '0' <= s[0] <= '9' {
        seq![s[0]] + leading_digits(s.skip(1))
    } else {
        Seq::empty()
    }
}

/// `cur` as a word, if it is not empty.
pub open spec fn flush(cur: Seq<char>) -> Seq<Seq<char>> {
    if cur.len() > 0 {
        seq![cur]
    } else {
        Seq::empty()
    }
}

/// The whitespace-separated words of `cur + s`, where `cur` holds no
/// whitespace.
pub open spec fn words_from(s: Seq<char>, cur: Seq<char>) -> Seq<Seq<char>>
    decreases s.len(),
{
    if s.len() == 0 {
        flush(cur)
    } else if is_space(s[0]) {
        flush(cur) + words_from(s.skip(1), Seq::empty())
    } else {
        words_from(s.skip(1), cur.push(s[0]))
    }
}

/// The whitespace-separated words of `s`.
pub open spec fn words(s: Seq<char>) -> Seq<Seq<char>> {
    words_from(s, Seq::empty())
}

/// The line `<ip> - - [<ts>] "<req>" <status> <size>`.
pub open spec fn access_line(
    ip: Seq<char>,
    ts: Seq<char>,
    req: Seq<char>,
    status: Seq<char>,
    size: Seq<char>,
) -> Seq<char> {
    ip + access_mark() + cut(
        ts,
        ']',
        seq![' ', '"'] + cut(req, '"', seq![' '] + cut(status, ' ', size)),
    )
}

/// What each part of an access line may hold.
pub open spec fn access_fields_ok(
    ip: Seq<char>,
    ts: Seq<char>,
    req: Seq<char>,
    status: Seq<char>,
    size: Seq<char>,
) -> bool {
    &&& is_token(ip)
    &&& !ts.contains(']')
    &&& !ts.contains('\n')
    &&& !req.contains('"')
    &&& !req.contains('\n')
    &&& words(req).len() == 3
    &&& is_number(status)
    &&& is_number(size)
}

/// Whether an access line stands in `s`, with any text before and after it.
pub open spec fn is_access_line(s: Seq<char>) -> bool {
    exists|
        pre: Seq<char>,
        ip: Seq<char>,
        ts: Seq<char>,
        req: Seq<char>,
        status: Seq<char>,
        size: Seq<char>,
        post: Seq<char>,
    |
        access_fields_ok(ip, ts, req, status, size) && s == #[trigger] (pre + access_line(
            ip,
            ts,
            req,
            status,
            size,
        ) + post)
}

/// The parts of the first access line in `s`, the request's words not yet
/// counted: ip, raw timestamp, request, status, size. The ip is the last word
/// before the first ` - - [`, and the size the digits that follow the
/// status; what follows the size is not read.
pub open spec fn access_frame(s: Seq<char>) -> Option<
    (Seq<char>, Seq<char>, Seq<char>, Seq<char>, Seq<char>),
> {
    match split_first_seq(s, access_mark()) {
        Some((pre, r2)) => match split_first(r2, ']') {
            Some((ts, r3)) => match strip_prefix(r3, seq![' ', '"']) {
                Some(r4) => match split_first(r4, '"') {
                    Some((req, r5)) => match strip_prefix(r5, seq![' ']) {
                        Some(r6) => match split_first(r6, ' ') {
                            Some((status, r7)) => {
                                let ip = trailing_word(pre);
                                let size = leading_digits(r7);
                                if ip.len() > 0 && is_number(status) && size.len() > 0
                                    && !ts.contains('\n') && !req.contains('\n') {
                                    Some((ip, ts, req, status, size))
                                } else {
                                    None
                                }
                            },
                            None => None,
                        },
                        None => None,
                    },
                    None => None,
                },
                None => None,
            },
            None => None,
        },
        None => None,
    }
}

/// The parts of an access line whose request is three words.
pub open spec fn access_parts(s: Seq<char>) -> Option<
    (Seq<char>, Seq<char>, Seq<char>, Seq<char>, Seq<char>),
> {
    match access_frame(s) {
        Some((ip, ts, req, status, size)) => if words(req).len() == 3 {
            Some((ip, ts, req, status, size))
        } else {
            None
        },
        None => None,
    }
}

/// Method, path and protocol of a request of three words; three empty texts
/// for a request of another shape.
pub open spec fn request_parts(req: Seq<char>) -> (Seq<char>, Seq<char>, Seq<char>) {
    if words(req).len() == 3 {
        (words(req)[0], words(req)[1], words(req)[2])
    } else {
        (Seq::empty(), Seq::empty(), Seq::empty())
    }
}

proof fn lemma_split_first_at(x: Seq<char>, c: char, rest: Seq<char>)
    requires
        !x.contains(c),
    ensures
        split_first(cut(x, c, rest), c) == Some((x, rest)),
    decreases x.len(),
{
    let s = cut(x, c, rest);
    if x.len() == 0 {
        assert(s[0] == c);
        assert(s.skip(1) =~= rest);
    } else {
        assert(s[0] == x[0]);
        if x[0] == c {
            assert(x.contains(c));
        }
        let y = x.skip(1);
        assert(!y.contains(c)) by {
            if y.contains(c) {
                let i = choose|i: int| 0 <= i < y.len() && y[i] == c;
                assert(x[i + 1] == c);
            }
        }
        lemma_split_first_at(y, c, rest);
        assert(s.skip(1) =~= cut(y, c, rest));
        assert(seq![x[0]] + y =~= x);
    }
}

proof fn lemma_split_first_some(s: Seq<char>, c: char)
    requires
        split_first(s, c) is Some,
    ensures
        ({
            let (x, rest) = split_first(s, c)->0;
            s == cut(x, c, rest) && !x.contains(c)
        }),
    decreases s.len(),
{
    if s[0] == c {
        assert(s =~= cut(Seq::empty(), c, s.skip(1)));
    } else {
        lemma_split_first_some(s.skip(1), c);
        let (y, rest) = split_first(s.skip(1), c)->0;
        let x = seq![s[0]] + y;
        assert(s =~= seq![s[0]] + s.skip(1));
        assert(s =~= cut(x, c, rest));
        if x.contains(c) {
            let i = choose|i: int| 0 <= i < x.len() && x[i] == c;
            assert(y[i - 1] == c);
        }
    }
}

proof fn lemma_split_first_none(s: Seq<char>, c: char)
    requires
        !s.contains(c),
    ensures
        split_first(s, c) is None,
    decreases s.len(),
{
    if s.len() > 0 {
        assert(s[0] != c);
        assert(!s.skip(1).contains(c)) by {
            if s.skip(1).contains(c) {
                let i = choose|i: int| 0 <= i < s.skip(1).len() && s.skip(1)[i] == c;
                assert(s[i + 1] == c);
            }
        }
        lemma_split_first_none(s.skip(1), c);
    }
}

proof fn lemma_strip_prefix_of(p: Seq<char>, rest: Seq<char>)
    ensures
        strip_prefix(p + rest, p) == Some(rest),
{
    assert((p + rest).take(p.len() as int) =~= p);
    assert((p + rest).skip(p.len() as int) =~= rest);
}

proof fn lemma_strip_prefix_some(s: Seq<char>, p: Seq<char>)
    requires
        strip_prefix(s, p) is Some,
    ensures
        s == p + strip_prefix(s, p)->0,
{
    assert(s =~= s.take(p.len() as int) + s.skip(p.len() as int));
}

/// The position of the first `c` in `v` at or after `start`, or the length
/// of `v` where there is none.
fn find_char(v: &Vec<char>, start: usize, c: char) -> (r: usize)
    requires
        start <= v@.len(),
    ensures
        start <= r <= v@.len(),
        r < v@.len() ==> split_first(v@.skip(start as int), c) == Some(
            (v@.subrange(start as int, r as int), v@.skip(r + 1)),
        ),
        r == v@.len() ==> split_first(v@.skip(start as int), c) is None,
{
    let mut i: usize = start;
    while i < v.len() && v[i] != c
        invariant
            start <= i <= v@.len(),
            forall|k: int| start <= k < i ==> v@[k] != c,
        decreases v@.len() - i,
    {
        i = i + 1;
    }
    proof {
        let x = v@.subrange(start as int, i as int);
        assert(!x.contains(c)) by {
            if x.contains(c) {
                let k = choose|k: int| 0 <= k < x.len() && x[k] == c;
                assert(v@[start + k] == c);
            }
        }
        if i < v@.len() {
            assert(v@.skip(start as int) =~= cut(x, c, v@.skip(i + 1)));
            lemma_split_first_at(x, c, v@.skip(i + 1));
        } else {
            assert(v@.skip(start as int) =~= x);
            lemma_split_first_none(x, c);
        }
    }
    i
}

/// Whether `v` holds `lit` at `pos`.
fn has_at(v: &Vec<char>, pos: usize, lit: &Vec<char>) -> (r: bool)
    requires
        pos <= v@.len(),
    ensures
        r == (strip_prefix(v@.skip(pos as int), lit@) is Some),
        r ==> strip_prefix(v@.skip(pos as int), lit@) == Some(v@.skip(pos + lit@.len())),
        r ==> pos + lit@.len() <= v@.len(),
{
    if lit.len() > v.len() - pos {
        return false;
    }
    let n = v.len();
    let mut k: usize = 0;
    while k < lit.len()
        invariant
            n == v@.len(),
            pos + lit@.len() <= v@.len(),
            k <= lit@.len(),
            forall|j: int| 0 <= j < k ==> v@[pos + j] == lit@[j],
        decreases lit@.len() - k,
    {
        if v[pos + k] != lit[k] {
            proof {
                assert(v@.skip(pos as int).take(lit@.len() as int)[k as int] != lit@[k as int]);
            }
            return false;
        }
        k = k + 1;
    }
    proof {
        assert(v@.skip(pos as int).take(lit@.len() as int) =~= lit@);
        assert(v@.skip(pos as int).skip(lit@.len() as int) =~= v@.skip(pos + lit@.len()));
    }
    true
}

/// Whether `v[from..to]` is a token.
fn token_in(v: &Vec<char>, from: usize, to: usize) -> (r: bool)
    requires
        from <= to <= v@.len(),
    ensures
        r == is_token(v@.subrange(from as int, to as int)),
{
    if from == to {
        return false;
    }
    let mut k: usize = from;
    while k < to
        invariant
            from <= k <= to <= v@.len(),
            forall|j: int| from <= j < k ==> !is_space(v@[j]),
        decreases to - k,
    {
        let c = v[k];
        if space_char(c) {
            proof {
                assert(v@.subrange(from as int, to as int)[k - from] == c);
            }
            return false;
        }
        k = k + 1;
    }
    proof {
        let t = v@.subrange(from as int, to as int);
        assert forall|i: int| 0 <= i < t.len() implies !is_space(#[trigger] t[i]) by {
            assert(t[i] == v@[from + i]);
        }
    }
    true
}

/// Whether `v[from..to]` is free of `c`.
fn free_of(v: &Vec<char>, from: usize, to: usize, c: char) -> (r: bool)
    requires
        from <= to <= v@.len(),
    ensures
        r == !v@.subrange(from as int, to as int).contains(c),
{
    let mut k: usize = from;
    while k < to
        invariant
            from <= k <= to <= v@.len(),
            forall|j: int| from <= j < k ==> v@[j] != c,
        decreases to - k,
    {
        if v[k] == c {
            proof {
                assert(v@.subrange(from as int, to as int)[k - from] == c);
            }
            return false;
        }
        k = k + 1;
    }
    proof {
        let t = v@.subrange(from as int, to as int);
        if t.contains(c) {
            let i = choose|i: int| 0 <= i < t.len() && t[i] == c;
            assert(v@[from + i] == c);
        }
    }
    true
}

/// Whether `v[from..to]` is a number.
fn number_in(v: &Vec<char>, from: usize, to: usize) -> (r: bool)
    requires
        from <= to <= v@.len(),
    ensures
        r == is_number(v@.subrange(from as int, to as int)),
{
    if from == to {
        return false;
    }
    let mut k: usize = from;
    while k < to
        invariant
            from <= k <= to <= v@.len(),
            forall|j: int| from <= j < k ==> '0' <= #[trigger] v@[j] <= '9',
        decreases to - k,
    {
        let c = v[k];
        if !('0' <= c && c <= '9') {
            proof {
                assert(v@.subrange(from as int, to as int)[k - from] == c);
            }
            return false;
        }
        k = k + 1;
    }
    proof {
        let t = v@.subrange(from as int, to as int);
        assert forall|i: int| 0 <= i < t.len() implies '0' <= #[trigger] t[i] <= '9' by {
            assert(t[i] == v@[from + i]);
        }
    }
    true
}

/// The characters of `s`.
fn chars_of(s: &str) -> (r: Vec<char>)
    ensures
        r@ == s@,
{
    let mut out: Vec<char> = Vec::new();
    let mut it = s.chars();
    loop
        invariant
            it.remaining() == s@.skip(out.len() as int),
            out@ == s@.take(out.len() as int),
            out.len() <= s@.len(),
            it.obeys_prophetic_iter_laws(),
        decreases s@.len() - out.len(),
    {
        match it.next() {
            Some(c) => {
                out.push(c);
            },
            None => {
                return out;
            },
        }
    }
}

/// The position of the first occurrence of `w` in `v`.
fn find_seq(v: &Vec<char>, w: &Vec<char>) -> (r: Option<usize>)
    requires
        w@.len() > 0,
    ensures
        match r {
            Some(i) => i + w@.len() <= v@.len() && split_first_seq(v@, w@) == Some(
                (v@.take(i as int), v@.skip(i + w@.len())),
            ),
            None => split_first_seq(v@, w@) is None,
        },
{
    let mut i: usize = 0;
    proof {
        assert(v@.skip(0) =~= v@);
        assert forall|x: Seq<char>| #[trigger] (v@.take(0) + x) =~= x by {}
    }
    while i < v.len()
        invariant
            i <= v@.len(),
            w@.len() > 0,
            split_first_seq(v@, w@) == match split_first_seq(v@.skip(i as int), w@) {
                Some((x, r)) => Some((v@.take(i as int) + x, r)),
                None => None,
            },
        decreases v@.len() - i,
    {
        if has_at(v, i, w) {
            proof {
                assert(v@.take(i as int) + Seq::<char>::empty() =~= v@.take(i as int));
            }
            return Some(i);
        }
        proof {
            let s = v@.skip(i as int);
            assert(s.skip(1) =~= v@.skip(i + 1));
            assert(s[0] == v@[i as int]);
            assert(v@.take(i + 1) =~= v@.take(i as int).push(v@[i as int]));
            assert forall|x: Seq<char>| #[trigger] (v@.take(i as int) + (seq![s[0]] + x)) =~= v@.take(i + 1) + x by {}
        }
        i = i + 1;
    }
    proof {
        assert(v@.skip(i as int).len() == 0);
    }
    None
}

/// Where the last word before position `end` of `v` starts.
fn word_start(v: &Vec<char>, end: usize) -> (r: usize)
    requires
        end <= v@.len(),
    ensures
        r <= end,
        trailing_word(v@.take(end as int)) == v@.subrange(r as int, end as int),
{
    let mut k: usize = end;
    while k > 0 && !space_char(v[k - 1])
        invariant
            k <= end <= v@.len(),
            trailing_word(v@.take(end as int)) == trailing_word(v@.take(k as int)) + v@.subrange(
                k as int,
                end as int,
            ),
        decreases k,
    {
        proof {
            let t = v@.take(k as int);
            assert(t.drop_last() =~= v@.take(k - 1));
            assert(t.last() == v@[k - 1]);
            assert(trailing_word(v@.take(k - 1)).push(v@[k - 1]) + v@.subrange(k as int, end as int)
                =~= trailing_word(v@.take(k - 1)) + v@.subrange(k - 1, end as int));
        }
        k = k - 1;
    }
    proof {
        assert(trailing_word(v@.take(k as int)) =~= Seq::<char>::empty());
        assert(Seq::<char>::empty() + v@.subrange(k as int, end as int) =~= v@.subrange(
            k as int,
            end as int,
        ));
    }
    k
}

/// Where the run of digits that starts at `start` in `v` ends.
fn digits_end(v: &Vec<char>, start: usize) -> (r: usize)
    requires
        start <= v@.len(),
    ensures
        start <= r <= v@.len(),
        leading_digits(v@.skip(start as int)) == v@.subrange(start as int, r as int),
{
    let mut k: usize = start;
    while k < v.len() && '0' <= v[k] && v[k] <= '9'
        invariant
            start <= k <= v@.len(),
            leading_digits(v@.skip(start as int)) == v@.subrange(start as int, k as int)
                + leading_digits(v@.skip(k as int)),
        decreases v@.len() - k,
    {
        proof {
            let t = v@.skip(k as int);
            assert(t.skip(1) =~= v@.skip(k + 1));
            assert(t[0] == v@[k as int]);
            assert(v@.subrange(start as int, k as int) + (seq![v@[k as int]] + leading_digits(
                v@.skip(k + 1),
            )) =~= v@.subrange(start as int, k + 1) + leading_digits(v@.skip(k + 1)));
        }
        k = k + 1;
    }
    proof {
        assert(leading_digits(v@.skip(k as int)) =~= Seq::<char>::empty());
        assert(v@.subrange(start as int, k as int) + Seq::<char>::empty() =~= v@.subrange(
            start as int,
            k as int,
        ));
    }
    k
}

/// The words of a sequence of word bounds in `v`.
pub open spec fn bounded_words(v: Seq<char>, b: Seq<(usize, usize)>) -> Seq<Seq<char>> {
    b.map_values(|p: (usize, usize)| v.subrange(p.0 as int, p.1 as int))
}

/// The bounds of the whitespace-separated words of `v`.
fn word_bounds(v: &Vec<char>) -> (r: Vec<(usize, usize)>)
    ensures
        forall|i: int| 0 <= i < r@.len() ==> (#[trigger] r@[i]).0 <= r@[i].1 <= v@.len(),
        bounded_words(v@, r@) == words(v@),
{
    let mut out: Vec<(usize, usize)> = Vec::new();
    let mut cur: usize = 0;
    let mut i: usize = 0;
    proof {
        assert(v@.skip(0) =~= v@);
        assert(v@.subrange(0, 0) =~= Seq::<char>::empty());
        assert(bounded_words(v@, out@) + words_from(v@, Seq::empty()) =~= words(v@));
    }
    while i < v.len()
        invariant
            cur <= i <= v@.len(),
            forall|j: int| 0 <= j < out@.len() ==> (#[trigger] out@[j]).0 <= out@[j].1 <= v@.len(),
            words(v@) == bounded_words(v@, out@) + words_from(
                v@.skip(i as int),
                v@.subrange(cur as int, i as int),
            ),
        decreases v@.len() - i,
    {
        let ghost s = v@.skip(i as int);
        let ghost cw = v@.subrange(cur as int, i as int);
        let ghost prev = out@;
        proof {
            assert(s.skip(1) =~= v@.skip(i + 1));
            assert(s[0] == v@[i as int]);
        }
        if space_char(v[i]) {
            if cur < i {
                out.push((cur, i));
                proof {
                    assert(bounded_words(v@, out@) =~= bounded_words(v@, prev) + seq![cw]);
                }
            } else {
                proof {
                    assert(bounded_words(v@, out@) =~= bounded_words(v@, prev) + flush(cw));
                }
            }
            i = i + 1;
            cur = i;
            proof {
                assert(v@.subrange(cur as int, i as int) =~= Seq::<char>::empty());
                assert(words(v@) =~= bounded_words(v@, out@) + words_from(
                    v@.skip(i as int),
                    v@.subrange(cur as int, i as int),
                ));
            }
        } else {
            i = i + 1;
            proof {
                assert(cw.push(s[0]) =~= v@.subrange(cur as int, i as int));
            }
        }
    }
    let ghost cw = v@.subrange(cur as int, i as int);
    let ghost prev = out@;
    proof {
        assert(v@.skip(i as int).len() == 0);
    }
    if cur < i {
        out.push((cur, i));
        proof {
            assert(bounded_words(v@, out@) =~= bounded_words(v@, prev) + seq![cw]);
        }
    } else {
        proof {
            assert(bounded_words(v@, out@) =~= bounded_words(v@, prev) + flush(cw));
        }
    }
    out
}

/// The three words of a request of three words.
fn request_words(request: &str) -> (r: Option<(String, String, String)>)
    ensures
        match r {
            Some((m, p, v)) => words(request@).len() == 3 && m@ == words(request@)[0] && p@
                == words(request@)[1] && v@ == words(request@)[2],
            None => words(request@).len() != 3,
        },
{
    let v = chars_of(request);
    let b = word_bounds(&v);
    if b.len() == 3 {
        proof {
            assert(bounded_words(v@, b@)[0] == v@.subrange(b@[0].0 as int, b@[0].1 as int));
            assert(bounded_words(v@, b@)[1] == v@.subrange(b@[1].0 as int, b@[1].1 as int));
            assert(bounded_words(v@, b@)[2] == v@.subrange(b@[2].0 as int, b@[2].1 as int));
        }
        Some(
            (
                request.substring_char(b[0].0, b[0].1).to_owned(),
                request.substring_char(b[1].0, b[1].1).to_owned(),
                request.substring_char(b[2].0, b[2].1).to_owned(),
            ),
        )
    } else {
        None
    }
}

/// Splits a request into its method, path and protocol: its three
/// whitespace-separated words; three empty texts where it has another number
/// of words.
pub fn parse_request(request: &str) -> (r: (String, String, String))
    ensures
        (r.0@, r.1@, r.2@) == request_parts(request@),
{
    match request_words(request) {
        Some(t) => t,
        None => (String::new(), String::new(), String::new()),
    }
}

/// Where the parts of the first access line in `v` start or end: the ip
/// starts at `a0` and ends at `a`, the timestamp ends at `c`, the request at
/// `e`, the status at `g`, and the size at `z`.
fn split_access(v: &Vec<char>) -> (r: Option<(usize, usize, usize, usize, usize, usize)>)
    ensures
        match r {
            Some((a0, a, c, e, g, z)) => {
                &&& a0 <= a
                &&& a + 6 <= c
                &&& c + 3 <= e
                &&& e + 2 <= g
                &&& g + 1 <= z <= v@.len()
                &&& access_frame(v@) == Some(
                    (
                        v@.subrange(a0 as int, a as int),
                        v@.subrange(a + 6, c as int),
                        v@.subrange(c + 3, e as int),
                        v@.subrange(e + 2, g as int),
                        v@.subrange(g + 1, z as int),
                    ),
                )
            },
            None => access_frame(v@) is None,
        },
{
    let n = v.len();
    let mark: Vec<char> = vec![' ', '-', ' ', '-', ' ', '['];
    assert(mark@ == access_mark());
    let a = match find_seq(v, &mark) {
        Some(a) => a,
        None => {
            return None;
        },
    };
    let a0 = word_start(v, a);
    let c = find_char(v, a + 6, ']');
    if c == n {
        return None;
    }
    let open_quote: Vec<char> = vec![' ', '"'];
    if !has_at(v, c + 1, &open_quote) {
        return None;
    }
    let e = find_char(v, c + 3, '"');
    if e == n {
        return None;
    }
    let space: Vec<char> = vec![' '];
    assert(space@ == seq![' ']);
    if !has_at(v, e + 1, &space) {
        return None;
    }
    let g = find_char(v, e + 2, ' ');
    if g == n {
        return None;
    }
    let z = digits_end(v, g + 1);
    if a0 < a && number_in(v, e + 2, g) && z > g + 1 && free_of(v, a + 6, c, '\n') && free_of(
        v,
        c + 3,
        e,
        '\n',
    ) {
        Some((a0, a, c, e, g, z))
    } else {
        None
    }
}

impl AccessLogEntry {
    /// Every field is the placeholder.
    pub open spec fn is_unknown(&self) -> bool {
        &&& self.ip_address@ == unknown()
        &&& self.timestamp@ == unknown()
        &&& self.method@ == unknown()
        &&& self.path@ == unknown()
        &&& self.http_version@ == unknown()
        &&& self.status@ == unknown()
        &&& self.response_size@ == unknown()
    }

    /// The entry that the parts of an access line give.
    pub open spec fn holds_parts(
        &self,
        ip: Seq<char>,
        ts: Seq<char>,
        req: Seq<char>,
        status: Seq<char>,
        size: Seq<char>,
    ) -> bool {
        &&& self.ip_address@ == ip
        &&& self.timestamp@ == normalized(ts)
        &&& renders(ts, self.timestamp@)
        &&& self.method@ == request_parts(req).0
        &&& self.path@ == request_parts(req).1
        &&& self.http_version@ == request_parts(req).2
        &&& self.status@ == status
        &&& self.response_size@ == size
    }

    /// The entry that parsing `line` as an access line gives.
    pub open spec fn parsed_from(&self, line: Seq<char>) -> bool {
        match access_parts(line) {
            Some((ip, ts, req, status, size)) => self.holds_parts(ip, ts, req, status, size),
            None => self.is_unknown(),
        }
    }

    /// The entry of a line of another shape.
    pub fn unknown_entry() -> (r: AccessLogEntry)
        ensures
            r.is_unknown(),
    {
        AccessLogEntry {
            ip_address: "Unknown".to_owned(),
            timestamp: "Unknown".to_owned(),
            method: "Unknown".to_owned(),
            path: "Unknown".to_owned(),
            http_version: "Unknown".to_owned(),
            status: "Unknown".to_owned(),
            response_size: "Unknown".to_owned(),
        }
    }
}

/// Parses an access-log line: finds the first access entry in it, copies its
/// ip, status and size, splits its request into method, path and protocol,
/// and normalizes its timestamp. A line without such an entry, or whose
/// request is not three words, gives placeholders throughout.
pub fn parse_access_log_line(line: &str) -> (r: AccessLogEntry)
    ensures
        r.parsed_from(line@),
{
    let v = chars_of(line);
    match split_access(&v) {
        Some((a0, a, c, e, g, z)) => match request_words(line.substring_char(c + 3, e)) {
            Some((method, path, http_version)) => {
                let raw_timestamp = line.substring_char(a + 6, c);
                AccessLogEntry {
                    ip_address: line.substring_char(a0, a).to_owned(),
                    timestamp: format_timestamp(raw_timestamp),
                    method,
                    path,
                    http_version,
                    status: line.substring_char(e + 2, g).to_owned(),
                    response_size: line.substring_char(g + 1, z).to_owned(),
                }
            },
            None => AccessLogEntry::unknown_entry(),
        },
        None => AccessLogEntry::unknown_entry(),
    }
}

/// The line `[<ts>] [<level>] [<a>] [<b>] <message>`.
pub open spec fn error_line(
    ts: Seq<char>,
    level: Seq<char>,
    a: Seq<char>,
    b: Seq<char>,
    message: Seq<char>,
) -> Seq<char> {
    seq!['['] + cut(
        ts,
        ']',
        seq![' ', '['] + cut(
            level,
            ']',
            seq![' ', '['] + cut(a, ']', seq![' ', '['] + cut(b, ']', seq![' '] + message)),
        ),
    )
}

/// What each bracketed part of an error line may hold.
pub open spec fn error_fields_ok(ts: Seq<char>, level: Seq<char>, a: Seq<char>, b: Seq<char>) -> bool {
    &&& !ts.contains(']') && !level.contains(']') && !a.contains(']') && !b.contains(']')
    &&& !ts.contains('\n') && !level.contains('\n') && !a.contains('\n') && !b.contains('\n')
}

/// Whether `s` has the shape of an error line.
pub open spec fn is_error_line(s: Seq<char>) -> bool {
    exists|ts: Seq<char>, level: Seq<char>, a: Seq<char>, b: Seq<char>, message: Seq<char>|
        error_fields_ok(ts, level, a, b) && s == #[trigger] error_line(ts, level, a, b, message)
}

/// The parts of an error line that an entry keeps: raw timestamp, level,
/// message.
pub open spec fn error_parts(s: Seq<char>) -> Option<(Seq<char>, Seq<char>, Seq<char>)> {
    match strip_prefix(s, seq!['[']) {
        Some(r1) => match split_first(r1, ']') {
            Some((ts, r2)) => match strip_prefix(r2, seq![' ', '[']) {
                Some(r3) => match split_first(r3, ']') {
                    Some((level, r4)) => match strip_prefix(r4, seq![' ', '[']) {
                        Some(r5) => match split_first(r5, ']') {
                            Some((a, r6)) => match strip_prefix(r6, seq![' ', '[']) {
                                Some(r7) => match split_first(r7, ']') {
                                    Some((b, r8)) => match strip_prefix(r8, seq![' ']) {
                                        Some(rest) => if !ts.contains('\n') && !level.contains(
                                            '\n',
                                        ) && !a.contains('\n') && !b.contains('\n') {
                                            Some((ts, level, first_line(rest)))
                                        } else {
                                            None
                                        },
                                        None => None,
                                    },
                                    None => None,
                                },
                                None => None,
                            },
                            None => None,
                        },
                        None => None,
                    },
                    None => None,
                },
                None => None,
            },
            None => None,
        },
        None => None,
    }
}

/// `s` up to its first line terminator.
pub open spec fn first_line(s: Seq<char>) -> Seq<char> {
    match split_first(s, '\n') {
        Some((x, _)) => x,
        None => s,
    }
}

/// The marker of PHP's error levels.
pub open spec fn php_marker() -> Seq<char> {
    seq!['p', 'h', 'p', ':']
}

/// A level as shown: without a leading `php:`.
pub open spec fn level_shown(level: Seq<char>) -> Seq<char> {
    match strip_prefix(level, php_marker()) {
        Some(rest) => rest,
        None => level,
    }
}

/// Where the parts of an error line end or start: the timestamp ends at
/// `c1`, the level at `c2`, and the message starts at `m` and ends at `z`.
#[verifier::rlimit(40)]
fn split_error(v: &Vec<char>) -> (r: Option<(usize, usize, usize, usize)>)
    ensures
        match r {
            Some((c1, c2, m, z)) => {
                &&& 1 <= c1
                &&& c1 + 3 <= c2
                &&& c2 < m <= z <= v@.len()
                &&& error_parts(v@) == Some(
                    (
                        v@.subrange(1, c1 as int),
                        v@.subrange(c1 + 3, c2 as int),
                        v@.subrange(m as int, z as int),
                    ),
                )
            },
            None => error_parts(v@) is None,
        },
{
    let n = v.len();
    proof {
        assert(v@.skip(0) =~= v@);
    }
    let open_bracket: Vec<char> = vec!['['];
    assert(open_bracket@ == seq!['[']);
    if !has_at(v, 0, &open_bracket) {
        return None;
    }
    let gap: Vec<char> = vec![' ', '['];
    let c1 = find_char(v, 1, ']');
    if c1 == n || !has_at(v, c1 + 1, &gap) {
        return None;
    }
    let c2 = find_char(v, c1 + 3, ']');
    if c2 == n || !has_at(v, c2 + 1, &gap) {
        return None;
    }
    let c3 = find_char(v, c2 + 3, ']');
    if c3 == n || !has_at(v, c3 + 1, &gap) {
        return None;
    }
    let c4 = find_char(v, c3 + 3, ']');
    let space: Vec<char> = vec![' '];
    assert(space@ == seq![' ']);
    if c4 == n || !has_at(v, c4 + 1, &space) {
        return None;
    }
    if !(free_of(v, 1, c1, '\n') && free_of(v, c1 + 3, c2, '\n') && free_of(v, c2 + 3, c3, '\n')
        && free_of(v, c3 + 3, c4, '\n')) {
        return None;
    }
    let z = find_char(v, c4 + 2, '\n');
    proof {
        let rest = v@.skip(c4 + 2);
        assert(rest =~= v@.subrange(c4 + 2, v@.len() as int));
        if z < n {
            assert(first_line(rest) == v@.subrange(c4 + 2, z as int));
        } else {
            assert(first_line(rest) == v@.subrange(c4 + 2, z as int));
        }
    }
    Some((c1, c2, c4 + 2, z))
}

/// Removes a leading `php:` from a level.
fn strip_level(level: &str) -> (r: String)
    ensures
        r@ == level_shown(level@),
{
    let v = chars_of(level);
    let marker: Vec<char> = vec!['p', 'h', 'p', ':'];
    if has_at(&v, 0, &marker) {
        proof {
            assert(v@.skip(0) =~= v@);
            assert(v@.skip(4) =~= v@.subrange(4, v@.len() as int));
        }
        level.substring_char(4, v.len()).to_owned()
    } else {
        proof {
            assert(v@.skip(0) =~= v@);
        }
        level.to_owned()
    }
}

impl LogEntry {
    /// The entry that parsing `line` as an error line gives.
    pub open spec fn parsed_from(&self, line: Seq<char>) -> bool {
        match error_parts(line) {
            Some((ts, level, message)) => {
                &&& self.timestamp@ == normalized(ts)
                &&& renders(ts, self.timestamp@)
                &&& self.level@ == level_shown(level)
                &&& self.message@ == message
            },
            None => {
                &&& self.timestamp@ == unknown()
                &&& self.level@ == unknown()
                &&& self.message@ == line
            },
        }
    }
}

/// Parses an error-log line. The timestamp is normalized, the level loses a
/// leading `php:`, and the message is the rest of the line up to a line
/// terminator; a line of
/// another shape gives placeholders and keeps the whole line as message.
pub fn parse_error_log_line(line: &str) -> (r: LogEntry)
    ensures
        r.parsed_from(line@),
{
    let v = chars_of(line);
    let n = v.len();
    match split_error(&v) {
        Some((c1, c2, m, z)) => LogEntry {
            timestamp: format_timestamp(line.substring_char(1, c1)),
            level: strip_level(line.substring_char(c1 + 3, c2)),
            message: line.substring_char(m, z).to_owned(),
        },
        None => LogEntry {
            timestamp: "Unknown".to_owned(),
            level: "Unknown".to_owned(),
            message: line.to_owned(),
        },
    }
}

/// Whether `w` occurs in `s`.
pub open spec fn occurs_in(s: Seq<char>, w: Seq<char>) -> bool {
    exists|i: int| 0 <= i <= s.len() && (#[trigger] strip_prefix(s.skip(i), w)) is Some
}

/// The marker in the name of an access-log file.
pub open spec fn access_marker() -> Seq<char> {
    seq!['a', 'c', 'c', 'e', 's', 's']
}

impl LogKind {
    /// The kind of the file named `name`: access logs carry `access` in
    /// their name.
    pub open spec fn of_name(name: Seq<char>) -> LogKind {
        if occurs_in(name, access_marker()) {
            LogKind::Access
        } else {
            LogKind::Error
        }
    }

    /// Decides the kind of a file from its name.
    pub fn from_file_name(file_name: &str) -> (r: LogKind)
        ensures
            r == LogKind::of_name(file_name@),
    {
        let v = chars_of(file_name);
        let marker: Vec<char> = vec!['a', 'c', 'c', 'e', 's', 's'];
        let mut i: usize = 0;
        while i < v.len()
            invariant
                i <= v@.len(),
                v@ == file_name@,
                marker@ == access_marker(),
                forall|j: int|
                    0 <= j < i ==> !((#[trigger] strip_prefix(v@.skip(j), access_marker())) is Some),
            decreases v@.len() - i,
        {
            if has_at(&v, i, &marker) {
                proof {
                    assert(strip_prefix(v@.skip(i as int), access_marker()) is Some);
                }
                return LogKind::Access;
            }
            i = i + 1;
        }
        proof {
            assert(!(strip_prefix(v@.skip(i as int), access_marker()) is Some));
        }
        LogKind::Error
    }
}

impl LogType {
    /// The entry that parsing `line` as a line of `kind` gives.
    pub open spec fn parsed_from(&self, line: Seq<char>, kind: LogKind) -> bool {
        match kind {
            LogKind::Access => self matches LogType::AccessLog(e) && e.parsed_from(line),
            LogKind::Error => self matches LogType::ErrorLog(e) && e.parsed_from(line),
        }
    }
}

/// Parses a line of a file of the given kind.
pub fn parse_line(line: &str, kind: LogKind) -> (r: LogType)
    ensures
        r.parsed_from(line@, kind),
{
    match kind {
        LogKind::Access => LogType::AccessLog(parse_access_log_line(line)),
        LogKind::Error => LogType::ErrorLog(parse_error_log_line(line)),
    }
}

/// Parses a line of the file named `file_name`, whose kind the name decides.
pub fn parse_log_line(line: &str, file_name: &str) -> (r: LogType)
    ensures
        r.parsed_from(line@, LogKind::of_name(file_name@)),
{
    parse_line(line, LogKind::from_file_name(file_name))
}

proof fn lemma_split_mark_at(x: Seq<char>, r: Seq<char>)
    requires
        forall|i: int| 0 <= i < x.len() ==> !is_space(#[trigger] x[i]),
    ensures
        split_first_seq(x + access_mark() + r, access_mark()) == Some((x, r)),
    decreases x.len(),
{
    let s = x + access_mark() + r;
    if x.len() == 0 {
        assert(s =~= access_mark() + r);
        lemma_strip_prefix_of(access_mark(), r);
    } else {
        assert(s[0] == x[0]);
        assert(!is_space(x[0]));
        assert(s.take(6)[0] != access_mark()[0]);
        let y = x.skip(1);
        assert forall|i: int| 0 <= i < y.len() implies !is_space(#[trigger] y[i]) by {
            assert(y[i] == x[i + 1]);
        }
        lemma_split_mark_at(y, r);
        assert(s.skip(1) =~= y + access_mark() + r);
        assert(seq![x[0]] + y =~= x);
    }
}

proof fn lemma_split_seq_some(s: Seq<char>, w: Seq<char>)
    requires
        split_first_seq(s, w) is Some,
    ensures
        ({
            let (x, r) = split_first_seq(s, w)->0;
            s == x + w + r
        }),
    decreases s.len(),
{
    match strip_prefix(s, w) {
        Some(r) => {
            lemma_strip_prefix_some(s, w);
            assert(s =~= Seq::<char>::empty() + w + r);
        },
        None => {
            lemma_split_seq_some(s.skip(1), w);
            let (y, r) = split_first_seq(s.skip(1), w)->0;
            assert(s =~= seq![s[0]] + s.skip(1));
            assert(s =~= (seq![s[0]] + y) + w + r);
        },
    }
}

proof fn lemma_trailing_word_all(x: Seq<char>)
    requires
        forall|i: int| 0 <= i < x.len() ==> !is_space(#[trigger] x[i]),
    ensures
        trailing_word(x) == x,
    decreases x.len(),
{
    if x.len() > 0 {
        let t = x.drop_last();
        assert forall|i: int| 0 <= i < t.len() implies !is_space(#[trigger] t[i]) by {
            assert(t[i] == x[i]);
        }
        lemma_trailing_word_all(t);
        assert(!is_space(x[x.len() - 1]));
        assert(t.push(x.last()) =~= x);
    }
}

proof fn lemma_trailing_word_suffix(s: Seq<char>)
    ensures
        trailing_word(s).len() <= s.len(),
        s == s.take(s.len() - trailing_word(s).len()) + trailing_word(s),
        forall|i: int|
            0 <= i < trailing_word(s).len() ==> !is_space(#[trigger] trailing_word(s)[i]),
    decreases s.len(),
{
    if s.len() == 0 || is_space(s.last()) {
        assert(s.take(s.len() as int) + Seq::<char>::empty() =~= s);
    } else {
        let t = s.drop_last();
        lemma_trailing_word_suffix(t);
        let tw = trailing_word(t);
        let front = t.take(t.len() - tw.len());
        assert(s =~= t.push(s.last()));
        assert((front + tw).push(s.last()) =~= front + tw.push(s.last()));
        assert(s =~= front + tw.push(s.last()));
        assert(s.take(s.len() - tw.len() - 1) =~= t.take(t.len() - tw.len()));
        assert forall|i: int| 0 <= i < tw.len() + 1 implies !is_space(
            #[trigger] tw.push(s.last())[i],
        ) by {
            if i < tw.len() {
                assert(tw.push(s.last())[i] == tw[i]);
            }
        }
    }
}

proof fn lemma_leading_digits_of(d: Seq<char>, post: Seq<char>)
    requires
        forall|i: int| 0 <= i < d.len() ==> '0' <= #[trigger] d[i] <= '9',
        post.len() == 0 || !('0' <= post[0] <= '9'),
    ensures
        leading_digits(d + post) == d,
    decreases d.len(),
{
    let s = d + post;
    if d.len() == 0 {
        assert(s =~= post);
    } else {
        assert(s[0] == d[0]);
        let e = d.skip(1);
        assert forall|i: int| 0 <= i < e.len() implies '0' <= #[trigger] e[i] <= '9' by {
            assert(e[i] == d[i + 1]);
        }
        lemma_leading_digits_of(e, post);
        assert(s.skip(1) =~= e + post);
        assert(seq![d[0]] + e =~= d);
    }
}

proof fn lemma_leading_digits_prefix(s: Seq<char>)
    ensures
        leading_digits(s).len() <= s.len(),
        s == leading_digits(s) + s.skip(leading_digits(s).len() as int),
        forall|i: int|
            0 <= i < leading_digits(s).len() ==> '0' <= #[trigger] leading_digits(s)[i] <= '9',
    decreases s.len(),
{
    if s.len() > 0 && '0' <= s[0] <= '9' {
        let t = s.skip(1);
        lemma_leading_digits_prefix(t);
        let d = leading_digits(t);
        assert(s =~= seq![s[0]] + t);
        assert(seq![s[0]] + (d + t.skip(d.len() as int)) =~= (seq![s[0]] + d) + t.skip(
            d.len() as int,
        ));
        assert(s =~= (seq![s[0]] + d) + t.skip(d.len() as int));
        assert(s.skip(d.len() + 1 as int) =~= t.skip(d.len() as int));
        assert forall|i: int| 0 <= i < d.len() + 1 implies '0' <= #[trigger] (seq![s[0]] + d)[i]
            <= '9' by {
            if i > 0 {
                assert((seq![s[0]] + d)[i] == d[i - 1]);
            }
        }
    } else {
        assert(s.skip(0) =~= s);
        assert(Seq::<char>::empty() + s =~= s);
    }
}

/// An access line of the expected shape yields exactly its parts, whatever
/// follows its size (a line terminator, or further fields) short of another
/// digit.
pub proof fn law_access_line_parts(
    ip: Seq<char>,
    ts: Seq<char>,
    req: Seq<char>,
    status: Seq<char>,
    size: Seq<char>,
    post: Seq<char>,
)
    requires
        access_fields_ok(ip, ts, req, status, size),
        post.len() == 0 || !('0' <= post[0] <= '9'),
    ensures
        access_parts(access_line(ip, ts, req, status, size) + post) == Some(
            (ip, ts, req, status, size),
        ),
{
    let r7 = size + post;
    let r6 = cut(status, ' ', r7);
    let r5 = seq![' '] + r6;
    let r4 = cut(req, '"', r5);
    let r3 = seq![' ', '"'] + r4;
    let r2 = cut(ts, ']', r3);
    assert(access_line(ip, ts, req, status, size) + post =~= ip + access_mark() + r2);
    assert(!status.contains(' ')) by {
        if status.contains(' ') {
            let i = choose|i: int| 0 <= i < status.len() && status[i] == ' ';
            assert('0' <= status[i] <= '9');
        }
    }
    lemma_split_mark_at(ip, r2);
    lemma_trailing_word_all(ip);
    lemma_split_first_at(ts, ']', r3);
    lemma_strip_prefix_of(seq![' ', '"'], r4);
    lemma_split_first_at(req, '"', r5);
    lemma_strip_prefix_of(seq![' '], r6);
    lemma_split_first_at(status, ' ', r7);
    lemma_leading_digits_of(size, post);
}

/// Parsing an access line of the expected shape keeps ip, status and size
/// as they stand, gives the request's three words as method, path and
/// protocol, and renders the timestamp canonically: a timestamp that a known
/// format reads is shown as chrono renders it.
pub proof fn law_access_fields_kept(
    e: AccessLogEntry,
    ip: Seq<char>,
    ts: Seq<char>,
    req: Seq<char>,
    status: Seq<char>,
    size: Seq<char>,
    post: Seq<char>,
)
    requires
        access_fields_ok(ip, ts, req, status, size),
        post.len() == 0 || !('0' <= post[0] <= '9'),
        e.parsed_from(access_line(ip, ts, req, status, size) + post),
    ensures
        e.ip_address@ == ip,
        e.timestamp@ == normalized(ts),
        first_stamp(ts) matches Some(d) ==> rendered_stamp(d, CANONICAL_FORMAT@) == Some(
            e.timestamp@,
        ),
        e.method@ == words(req)[0],
        e.path@ == words(req)[1],
        e.http_version@ == words(req)[2],
        e.status@ == status,
        e.response_size@ == size,
{
    law_access_line_parts(ip, ts, req, status, size, post);
}

proof fn lemma_access_parts_shape(s: Seq<char>)
    requires
        access_parts(s) is Some,
    ensures
        is_access_line(s),
{
    let (pre, r2) = split_first_seq(s, access_mark())->0;
    lemma_split_seq_some(s, access_mark());
    let (ts, r3) = split_first(r2, ']')->0;
    lemma_split_first_some(r2, ']');
    let r4 = strip_prefix(r3, seq![' ', '"'])->0;
    lemma_strip_prefix_some(r3, seq![' ', '"']);
    let (req, r5) = split_first(r4, '"')->0;
    lemma_split_first_some(r4, '"');
    let r6 = strip_prefix(r5, seq![' '])->0;
    lemma_strip_prefix_some(r5, seq![' ']);
    let (status, r7) = split_first(r6, ' ')->0;
    lemma_split_first_some(r6, ' ');
    let ip = trailing_word(pre);
    lemma_trailing_word_suffix(pre);
    let size = leading_digits(r7);
    lemma_leading_digits_prefix(r7);
    let pre0 = pre.take(pre.len() - ip.len());
    let post = r7.skip(size.len() as int);
    assert(access_fields_ok(ip, ts, req, status, size));
    assert(s =~= pre0 + access_line(ip, ts, req, status, size) + post);
}

/// A line in which no access line of the expected shape stands gives
/// placeholders in every field.
pub proof fn law_access_mismatch(e: AccessLogEntry, s: Seq<char>)
    requires
        !is_access_line(s),
        e.parsed_from(s),
    ensures
        e.is_unknown(),
{
    if access_parts(s) is Some {
        lemma_access_parts_shape(s);
    }
}

/// An error line of the expected shape yields its timestamp, level and
/// message; a line terminator and what follows it are not part of the
/// message.
pub proof fn law_error_line_parts(
    ts: Seq<char>,
    level: Seq<char>,
    a: Seq<char>,
    b: Seq<char>,
    message: Seq<char>,
    tail: Seq<char>,
)
    requires
        error_fields_ok(ts, level, a, b),
        !message.contains('\n'),
        tail.len() == 0 || tail[0] == '\n',
    ensures
        error_parts(error_line(ts, level, a, b, message + tail)) == Some((ts, level, message)),
{
    let rest = message + tail;
    if tail.len() == 0 {
        assert(rest =~= message);
        lemma_split_first_none(message, '\n');
    } else {
        assert(rest =~= cut(message, '\n', tail.skip(1)));
        lemma_split_first_at(message, '\n', tail.skip(1));
    }
    let r8 = seq![' '] + rest;
    let r7 = cut(b, ']', r8);
    let r6 = seq![' ', '['] + r7;
    let r5 = cut(a, ']', r6);
    let r4 = seq![' ', '['] + r5;
    let r3 = cut(level, ']', r4);
    let r2 = seq![' ', '['] + r3;
    let r1 = cut(ts, ']', r2);
    lemma_strip_prefix_of(seq!['['], r1);
    lemma_split_first_at(ts, ']', r2);
    lemma_strip_prefix_of(seq![' ', '['], r3);
    lemma_split_first_at(level, ']', r4);
    lemma_strip_prefix_of(seq![' ', '['], r5);
    lemma_split_first_at(a, ']', r6);
    lemma_strip_prefix_of(seq![' ', '['], r7);
    lemma_split_first_at(b, ']', r8);
    lemma_strip_prefix_of(seq![' '], rest);
}

proof fn lemma_error_parts_shape(s: Seq<char>)
    requires
        error_parts(s) is Some,
    ensures
        is_error_line(s),
{
    let r1 = strip_prefix(s, seq!['['])->0;
    lemma_strip_prefix_some(s, seq!['[']);
    let (ts, r2) = split_first(r1, ']')->0;
    lemma_split_first_some(r1, ']');
    let r3 = strip_prefix(r2, seq![' ', '['])->0;
    lemma_strip_prefix_some(r2, seq![' ', '[']);
    let (level, r4) = split_first(r3, ']')->0;
    lemma_split_first_some(r3, ']');
    let r5 = strip_prefix(r4, seq![' ', '['])->0;
    lemma_strip_prefix_some(r4, seq![' ', '[']);
    let (a, r6) = split_first(r5, ']')->0;
    lemma_split_first_some(r5, ']');
    let r7 = strip_prefix(r6, seq![' ', '['])->0;
    lemma_strip_prefix_some(r6, seq![' ', '[']);
    let (b, r8) = split_first(r7, ']')->0;
    lemma_split_first_some(r7, ']');
    let message = strip_prefix(r8, seq![' '])->0;
    lemma_strip_prefix_some(r8, seq![' ']);
    assert(error_fields_ok(ts, level, a, b));
    assert(s == error_line(ts, level, a, b, message));
}

/// A line that is not of the error shape gives placeholders for timestamp
/// and level, and keeps the whole line as message.
pub proof fn law_error_mismatch(e: LogEntry, s: Seq<char>)
    requires
        !is_error_line(s),
        e.parsed_from(s),
    ensures
        e.timestamp@ == unknown(),
        e.level@ == unknown(),
        e.message@ == s,
{
    if error_parts(s) is Some {
        lemma_error_parts_shape(s);
    }
}

} // verus!
