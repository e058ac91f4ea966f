//! Splitting descriptor text into lines and lines into tokens.
//!
//! Lines are separated by `'\n'`; a segment terminated by `'\n'` loses one
//! trailing `'\r'`, so both `"\n"` and `"\r\n"` line endings are understood,
//! and a final empty segment after a trailing terminator is not a line.
//! Tokens within a line are separated by single `' '` characters; consecutive
//! separators yield empty tokens.

use vstd::prelude::*;

use vstd::string::StrSliceExecFns;

verus! {

/// The segments of `t` between occurrences of `sep`: always one more
/// segment than there are separators, with empty segments kept.
pub open spec fn split_char(t: Seq<char>, sep: char) -> Seq<Seq<char>>
    decreases t.len(),
{
    if t.len() == 0 {
        seq![Seq::<char>::empty()]
    } else if t[0] == sep {
        seq![Seq::<char>::empty()] + split_char(t.drop_first(), sep)
    } else {
        let rest = split_char(t.drop_first(), sep);
        seq![seq![t[0]] + rest[0]] + rest.subrange(1, rest.len() as int)
    }
}

/// A segment with one trailing carriage return removed.
pub open spec fn strip_cr(l: Seq<char>) -> Seq<char> {
    if l.len() > 0 && l.last() == '\r' {
        l.drop_last()
    } else {
        l
    }
}

/// The lines of `t`: segments between `'\n'` characters, each terminated
/// segment stripped of one trailing `'\r'`, and without the empty segment
/// that follows a final terminator.
pub open spec fn spec_lines(t: Seq<char>) -> Seq<Seq<char>> {
    let segs = split_char(t, '\n');
    if segs.last().len() == 0 {
        segs.drop_last().map_values(|l: Seq<char>| strip_cr(l))
    } else {
        segs.drop_last().map_values(|l: Seq<char>| strip_cr(l)).push(segs.last())
    }
}

/// Splitting yields at least one segment.
pub proof fn lemma_split_char_len(t: Seq<char>, sep: char)
    ensures
        split_char(t, sep).len() >= 1,
    decreases t.len(),
{
    if t.len() > 0 {
        lemma_split_char_len(t.drop_first(), sep);
    }
}

/// A text without the separator is a single segment.
pub proof fn lemma_split_char_whole(t: Seq<char>, sep: char)
    requires
        forall|i: int| 0 <= i < t.len() ==> t[i] != sep,
    ensures
        split_char(t, sep) == seq![t],
    decreases t.len(),
{
    if t.len() == 0 {
        assert(split_char(t, sep) =~~= seq![t]);
    } else {
        assert(t[0] != sep);
        lemma_split_char_whole(t.drop_first(), sep);
        let rest = split_char(t.drop_first(), sep);
        assert(rest == seq![t.drop_first()]);
        assert(seq![t[0]] + t.drop_first() =~= t);
        assert(rest.subrange(1, 1) =~~= Seq::<Seq<char>>::empty());
        assert(split_char(t, sep) =~~= seq![t]);
    }
}

/// Splitting at the first separator: the head segment is everything before
/// it, and the remaining segments are those of the text after it.
pub proof fn lemma_split_char_first(t: Seq<char>, sep: char, k: int)
    requires
        0 <= k < t.len(),
        t[k] == sep,
        forall|i: int| 0 <= i < k ==> t[i] != sep,
    ensures
        split_char(t, sep) == seq![t.subrange(0, k)] + split_char(
            t.subrange(k + 1, t.len() as int),
            sep,
        ),
    decreases k,
{
    if k == 0 {
        assert(t.subrange(0, 0) =~= Seq::<char>::empty());
        assert(t.subrange(1, t.len() as int) =~= t.drop_first());
        assert(split_char(t, sep) =~~= seq![t.subrange(0, 0)] + split_char(
            t.subrange(1, t.len() as int),
            sep,
        ));
    } else {
        assert(t[0] != sep);
        let u = t.drop_first();
        assert(u[k - 1] == sep);
        assert(forall|i: int| 0 <= i < k - 1 ==> u[i] == t[i + 1] && u[i] != sep);
        lemma_split_char_first(u, sep, k - 1);
        let rest = split_char(u, sep);
        lemma_split_char_len(u.subrange(k, u.len() as int), sep);
        assert(rest == seq![u.subrange(0, k - 1)] + split_char(u.subrange(k, u.len() as int), sep));
        assert(seq![t[0]] + rest[0] =~= t.subrange(0, k));
        assert(u.subrange(k, u.len() as int) =~= t.subrange(k + 1, t.len() as int));
        assert(rest.subrange(1, rest.len() as int) =~~= split_char(
            t.subrange(k + 1, t.len() as int),
            sep,
        ));
        assert(split_char(t, sep) =~~= seq![t.subrange(0, k)] + split_char(
            t.subrange(k + 1, t.len() as int),
            sep,
        ));
    }
}

/// The characters of `s`, in order.
pub fn to_char_vec(s: &str) -> (r: Vec<char>)
    ensures
        r@ == s@,
{
    let n = s.unicode_len();
    let mut r: Vec<char> = Vec::new();
    let mut i: usize = 0;
    while i < n
        invariant
            n == s@.len(),
            i <= n,
            r@ == s@.subrange(0, i as int),
        decreases n - i,
    {
        let c = s.get_char(i);
        r.push(c);
        proof {
            assert(r@ =~= s@.subrange(0, i + 1));
        }
        i += 1;
    }
    proof {
        assert(r@ =~= s@);
    }
    r
}

/// Copy the characters `from..to` of `s` into an owned string.
fn substring(s: &str, from: usize, to: usize) -> (r: String)
    requires
        from <= to <= s@.len(),
    ensures
        r@ == s@.subrange(from as int, to as int),
{
    s.substring_char(from, to).to_owned()
}

/// The lines of `s`, as [`spec_lines`] describes them.
pub fn split_lines(s: &str) -> (r: Vec<String>)
    ensures
        r.deep_view() == spec_lines(s@),
{
    let chars = to_char_vec(s);
    let n = chars.len();
    let mut lines: Vec<String> = Vec::new();
    let ghost mut done: Seq<Seq<char>> = Seq::empty();
    let mut start: usize = 0;
    let mut i: usize = 0;
    proof {
        assert(s@.subrange(0, n as int) =~= s@);
        assert(done + split_char(s@, '\n') =~~= split_char(s@, '\n'));
    }
    while i < n
        invariant
            chars@ == s@,
            n == s@.len(),
            start <= i <= n,
            forall|j: int| start <= j < i ==> s@[j] != '\n',
            split_char(s@, '\n') == done + split_char(
                s@.subrange(start as int, n as int),
                '\n',
            ),
            lines@.len() == done.len(),
            forall|k: int| 0 <= k < done.len() ==> lines@[k]@ == strip_cr(#[trigger] done[k]),
        decreases n - i,
    {
        if chars[i] == '\n' {
            let line = if i > start && chars[i - 1] == '\r' {
                substring(s, start, i - 1)
            } else {
                substring(s, start, i)
            };
            proof {
                let seg = s@.subrange(start as int, n as int);
                lemma_split_char_first(seg, '\n', i - start);
                assert(seg.subrange(0, i - start) =~= s@.subrange(start as int, i as int));
                assert(seg.subrange(i - start + 1, seg.len() as int) =~= s@.subrange(
                    i + 1,
                    n as int,
                ));
                let piece = s@.subrange(start as int, i as int);
                if i > start && s@[i - 1] == '\r' {
                    assert(piece.last() == '\r');
                    assert(strip_cr(piece) =~= s@.subrange(start as int, i - 1));
                } else {
                    assert(strip_cr(piece) == piece);
                }
                done = done.push(piece);
                assert(split_char(s@, '\n') =~~= done + split_char(
                    s@.subrange(i + 1, n as int),
                    '\n',
                ));
            }
            lines.push(line);
            start = i + 1;
        }
        i += 1;
    }
    let ghost tail = s@.subrange(start as int, n as int);
    proof {
        lemma_split_char_whole(tail, '\n');
        assert(split_char(s@, '\n') == done + seq![tail]);
        lemma_split_char_len(tail, '\n');
        assert(split_char(s@, '\n').last() == tail);
        assert(split_char(s@, '\n').drop_last() =~= done);
    }
    if start < n {
        let line = substring(s, start, n);
        lines.push(line);
        proof {
            assert(tail.len() > 0);
            assert(lines@.len() == done.len() + 1);
            let mapped = done.map_values(|l: Seq<char>| strip_cr(l));
            assert(spec_lines(s@) == mapped.push(tail));
            assert(lines.deep_view() =~~= mapped.push(tail));
        }
    } else {
        proof {
            assert(tail.len() == 0);
            let mapped = done.map_values(|l: Seq<char>| strip_cr(l));
            assert(spec_lines(s@) == mapped);
            assert(lines.deep_view() =~~= mapped);
        }
    }
    lines
}

/// The tokens of `s` between single spaces, as [`split_char`] describes them.
pub fn split_spaces(s: &str) -> (r: Vec<String>)
    ensures
        r.deep_view() == split_char(s@, ' '),
{
    let chars = to_char_vec(s);
    let n = chars.len();
    let mut tokens: Vec<String> = Vec::new();
    let ghost mut done: Seq<Seq<char>> = Seq::empty();
    let mut start: usize = 0;
    let mut i: usize = 0;
    proof {
        assert(s@.subrange(0, n as int) =~= s@);
        assert(done + split_char(s@, ' ') =~~= split_char(s@, ' '));
    }
    while i < n
        invariant
            chars@ == s@,
            n == s@.len(),
            start <= i <= n,
            forall|j: int| start <= j < i ==> s@[j] != ' ',
            split_char(s@, ' ') == done + split_char(s@.subrange(start as int, n as int), ' '),
            tokens@.len() == done.len(),
            forall|k: int| 0 <= k < done.len() ==> tokens@[k]@ == #[trigger] done[k],
        decreases n - i,
    {
        if chars[i] == ' ' {
            let token = substring(s, start, i);
            proof {
                let seg = s@.subrange(start as int, n as int);
                lemma_split_char_first(seg, ' ', i - start);
                assert(seg.subrange(0, i - start) =~= s@.subrange(start as int, i as int));
                assert(seg.subrange(i - start + 1, seg.len() as int) =~= s@.subrange(
                    i + 1,
                    n as int,
                ));
                done = done.push(s@.subrange(start as int, i as int));
                assert(split_char(s@, ' ') =~~= done + split_char(
                    s@.subrange(i + 1, n as int),
                    ' ',
                ));
            }
            tokens.push(token);
            start = i + 1;
        }
        i += 1;
    }
    let token = substring(s, start, n);
    tokens.push(token);
    proof {
        let tail = s@.subrange(start as int, n as int);
        lemma_split_char_whole(tail, ' ');
        assert(split_char(s@, ' ') == done + seq![tail]);
        assert(tokens.deep_view() =~~= done + seq![tail]);
    }
    tokens
}

} // verus!
