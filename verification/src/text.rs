use vstd::prelude::*;
use vstd::string::StringExecFns;

verus! {

/// The pieces of `s` between the occurrences of `sep`, in order. There is
/// always one piece more than there are separators, so the pieces before the
/// first separator, between two adjacent ones and after the last one may be
/// empty.
pub open spec fn split_on<A>(s: Seq<A>, sep: A) -> Seq<Seq<A>>
    decreases s.len(),
{
    if s.len() == 0 {
        seq![Seq::<A>::empty()]
    } else {
        let before = split_on(s.drop_last(), sep);
        if s.last() == sep {
            before.push(Seq::<A>::empty())
        } else {
            before.drop_last().push(before.last().push(s.last()))
        }
    }
}

/// The pieces of `parts` written one after the other with `sep` between
/// each two neighbours.
pub open spec fn joined<A>(parts: Seq<Seq<A>>, sep: A) -> Seq<A>
    decreases parts.len(),
{
    if parts.len() == 0 {
        Seq::<A>::empty()
    } else if parts.len() == 1 {
        parts[0]
    } else {
        joined(parts.drop_last(), sep) + seq![sep] + parts.last()
    }
}

/// `line` without `end` as its last item, if that is its last item.
pub open spec fn without_last<A>(line: Seq<A>, end: A) -> Seq<A> {
    if line.len() > 0 && line.last() == end {
        line.drop_last()
    } else {
        line
    }
}

/// The lines of `text`, where `lf` is the line feed and `cr` the carriage
/// return. A line ends at a line feed; a carriage return just before that
/// line feed belongs to the line ending too. What follows the last line feed
/// is a line of its own unless it is empty, and it keeps a carriage return at
/// its end.
pub open spec fn lines_ending<A>(text: Seq<A>, lf: A, cr: A) -> Seq<Seq<A>> {
    let pieces = split_on(text, lf);
    let ended = pieces.drop_last().map_values(|line: Seq<A>| without_last(line, cr));
    if pieces.last().len() == 0 {
        ended
    } else {
        ended.push(pieces.last())
    }
}

/// `line` without the carriage return at its end, if it has one.
pub open spec fn without_cr(line: Seq<char>) -> Seq<char> {
    without_last(line, '\r')
}

/// The lines of a text.
pub open spec fn lines_of(text: Seq<char>) -> Seq<Seq<char>> {
    lines_ending(text, '\n', '\r')
}

/// The lines of a text that is still in bytes.
pub open spec fn byte_lines_of(bytes: Seq<u8>) -> Seq<Seq<u8>> {
    lines_ending(bytes, 10u8, 13u8)
}

/// Whether `c` occurs nowhere in `s`.
pub open spec fn free_of<A>(s: Seq<A>, c: A) -> bool {
    forall|i: int| 0 <= i < s.len() ==> s[i] != c
}

/// Whether `c` occurs in none of `parts`.
pub open spec fn all_free_of<A>(parts: Seq<Seq<A>>, c: A) -> bool {
    forall|k: int| 0 <= k < parts.len() ==> free_of(#[trigger] parts[k], c)
}

/// Splitting always yields at least one piece.
pub proof fn lemma_split_on_nonempty<A>(s: Seq<A>, sep: A)
    ensures
        split_on(s, sep).len() >= 1,
    decreases s.len(),
{
    if s.len() > 0 {
        lemma_split_on_nonempty(s.drop_last(), sep);
    }
}

/// Text without a separator, written behind `s`, lengthens the last piece of
/// `s` and leaves the others as they are.
pub proof fn lemma_split_on_tail<A>(s: Seq<A>, t: Seq<A>, sep: A)
    requires
        free_of(t, sep),
    ensures
        split_on(s + t, sep) == split_on(s, sep).drop_last().push(split_on(s, sep).last() + t),
    decreases t.len(),
{
    lemma_split_on_nonempty(s, sep);
    let pieces = split_on(s, sep);
    if t.len() == 0 {
        assert(s + t == s);
        assert(pieces.last() + t == pieces.last());
        assert(pieces.drop_last().push(pieces.last()) == pieces);
    } else {
        let shorter = t.drop_last();
        lemma_split_on_tail(s, shorter, sep);
        assert((s + t).drop_last() == s + shorter);
        assert((s + t).last() == t.last());
        let grown = pieces.drop_last().push(pieces.last() + shorter);
        assert(grown.drop_last() == pieces.drop_last());
        assert((pieces.last() + shorter).push(t.last()) == pieces.last() + t);
    }
}

/// Splitting undoes joining: pieces that hold no separator come back as
/// they were when the text joined from them is split.
pub proof fn lemma_split_joined<A>(parts: Seq<Seq<A>>, sep: A)
    requires
        parts.len() >= 1,
        all_free_of(parts, sep),
    ensures
        split_on(joined(parts, sep), sep) == parts,
    decreases parts.len(),
{
    let empty = Seq::<A>::empty();
    if parts.len() == 1 {
        lemma_split_on_tail(empty, parts[0], sep);
        assert(empty + parts[0] == parts[0]);
        assert(split_on(empty, sep) == seq![empty]);
        assert(seq![empty].drop_last().push(empty + parts[0]) == parts);
    } else {
        let front = parts.drop_last();
        assert(all_free_of(front, sep)) by {
            assert forall|k: int| 0 <= k < front.len() implies free_of(#[trigger] front[k], sep) by {
                assert(front[k] == parts[k]);
            }
        }
        lemma_split_joined(front, sep);
        let head = joined(front, sep) + seq![sep];
        assert(head.drop_last() == joined(front, sep));
        assert(split_on(head, sep) == front.push(empty));
        lemma_split_on_tail(head, parts.last(), sep);
        assert(front.push(empty).drop_last().push(empty + parts.last()) == parts);
    }
}

/// Joining undoes splitting, and no piece holds the separator.
pub proof fn lemma_joined_split<A>(s: Seq<A>, sep: A)
    ensures
        joined(split_on(s, sep), sep) == s,
        all_free_of(split_on(s, sep), sep),
    decreases s.len(),
{
    let empty = Seq::<A>::empty();
    if s.len() == 0 {
        assert(free_of(empty, sep));
    } else {
        let before = split_on(s.drop_last(), sep);
        lemma_joined_split(s.drop_last(), sep);
        lemma_split_on_nonempty(s.drop_last(), sep);
        let pieces = split_on(s, sep);
        if s.last() == sep {
            assert(pieces.drop_last() == before);
            assert(joined(before, sep) + seq![sep] + empty == s);
            assert forall|k: int| 0 <= k < pieces.len() implies free_of(#[trigger] pieces[k], sep) by {
                if k < before.len() {
                    assert(pieces[k] == before[k]);
                }
            }
        } else {
            let last = before.last().push(s.last());
            assert(pieces.drop_last() == before.drop_last());
            if before.len() == 1 {
                assert(joined(before, sep) == before[0]);
                assert(last == s);
            } else {
                assert(joined(before, sep) == joined(before.drop_last(), sep) + seq![sep]
                    + before.last());
                let front = joined(before.drop_last(), sep) + seq![sep];
                assert(front + before.last() == s.drop_last());
                assert(s == s.drop_last().push(s.last()));
                assert(front + last == (front + before.last()).push(s.last()));
            }
            assert forall|k: int| 0 <= k < pieces.len() implies free_of(#[trigger] pieces[k], sep) by {
                if k < before.len() - 1 {
                    assert(pieces[k] == before[k]);
                } else {
                    assert(free_of(before[k], sep));
                }
            }
        }
    }
}

/// The lines among `lines` that are not empty, in order.
pub open spec fn nonblank(lines: Seq<Seq<char>>) -> Seq<Seq<char>> {
    lines.filter(|line: Seq<char>| line.len() > 0)
}

/// Each of `lines` without the carriage return at its end.
pub open spec fn all_without_cr(lines: Seq<Seq<char>>) -> Seq<Seq<char>> {
    lines.map_values(|line: Seq<char>| without_cr(line))
}

/// What reading makes of `lines` once they stand in a text with a line feed
/// between each two neighbours: all but the last lose a carriage return at
/// their end.
pub open spec fn as_read(lines: Seq<Seq<char>>) -> Seq<Seq<char>> {
    if lines.len() == 0 {
        lines
    } else {
        all_without_cr(lines.drop_last()).push(lines.last())
    }
}

/// Text joined from pieces holds a character only if a piece or the
/// separator does.
pub proof fn lemma_joined_free_of<A>(parts: Seq<Seq<A>>, sep: A, c: A)
    requires
        all_free_of(parts, c),
        sep != c,
    ensures
        free_of(joined(parts, sep), c),
    decreases parts.len(),
{
    if parts.len() == 1 {
        assert(free_of(parts[0], c));
    } else if parts.len() > 1 {
        let front = parts.drop_last();
        assert forall|k: int| 0 <= k < front.len() implies free_of(#[trigger] front[k], c) by {
            assert(front[k] == parts[k]);
        }
        lemma_joined_free_of(front, sep, c);
        assert(free_of(parts[parts.len() - 1], c));
    }
}

/// Text joined from pieces ends as its last piece does, or with the
/// separator where that piece is empty; it is empty only where there is
/// nothing to join but at most one empty piece.
pub proof fn lemma_joined_end<A>(parts: Seq<Seq<A>>, sep: A)
    requires
        parts.len() >= 1,
    ensures
        joined(parts, sep).len() == 0 <==> parts.len() == 1 && parts[0].len() == 0,
        parts.last().len() > 0 ==> joined(parts, sep).len() > 0 && joined(parts, sep).last()
            == parts.last().last(),
        parts.last().len() == 0 && parts.len() >= 2 ==> joined(parts, sep).last() == sep,
{
    if parts.len() >= 2 {
        let front = joined(parts.drop_last(), sep) + seq![sep];
        assert(joined(parts, sep) == front + parts.last());
        if parts.last().len() == 0 {
            assert(front + parts.last() == front);
        }
    }
}

/// The lines of a text joined from lines that hold no line feed are those
/// lines as reading leaves them, but for an empty line at the end.
pub proof fn lemma_lines_of_joined(lines: Seq<Seq<char>>)
    requires
        all_free_of(lines, '\n'),
    ensures
        nonblank(lines_of(joined(lines, '\n'))) == nonblank(as_read(lines)),
{
    reveal(Seq::filter);
    let text = joined(lines, '\n');
    if lines.len() == 0 {
        assert(split_on(text, '\n') == seq![Seq::<char>::empty()]);
        assert(seq![Seq::<char>::empty()].drop_last() == Seq::<Seq<char>>::empty());
        assert(lines_of(text) == Seq::<Seq<char>>::empty());
        assert(lines_of(text) == as_read(lines));
    } else {
        lemma_split_joined(lines, '\n');
        let ended = all_without_cr(lines.drop_last());
        assert(as_read(lines).drop_last() == ended);
        if lines.last().len() == 0 {
            assert(lines_of(text) == ended);
        } else {
            assert(lines_of(text) == as_read(lines));
        }
    }
}

/// Leaving out the empty lines before carriage returns are dropped, and
/// again after, keeps what dropping them once after does.
pub proof fn lemma_nonblank_without_cr(lines: Seq<Seq<char>>)
    ensures
        nonblank(all_without_cr(lines)) == nonblank(all_without_cr(nonblank(lines))),
    decreases lines.len(),
{
    reveal(Seq::filter);
    if lines.len() == 0 {
        assert(nonblank(lines) == lines);
    } else {
        let front = lines.drop_last();
        let last = lines.last();
        lemma_nonblank_without_cr(front);
        assert(all_without_cr(lines).drop_last() == all_without_cr(front));
        assert(all_without_cr(lines).last() == without_cr(last));
        if last.len() > 0 {
            let kept = nonblank(lines);
            assert(kept == nonblank(front).push(last));
            assert(kept.drop_last() == nonblank(front));
            assert(all_without_cr(kept).drop_last() == all_without_cr(nonblank(front)));
            assert(all_without_cr(kept).last() == without_cr(last));
        } else {
            assert(nonblank(lines) == nonblank(front));
        }
    }
}

/// The lines that are kept hold no character that none of the lines held.
pub proof fn lemma_nonblank_free_of(lines: Seq<Seq<char>>, c: char)
    requires
        all_free_of(lines, c),
    ensures
        all_free_of(nonblank(lines), c),
    decreases lines.len(),
{
    reveal(Seq::filter);
    if lines.len() > 0 {
        let front = lines.drop_last();
        assert forall|k: int| 0 <= k < front.len() implies free_of(#[trigger] front[k], c) by {
            assert(front[k] == lines[k]);
        }
        lemma_nonblank_free_of(front, c);
        let kept = nonblank(lines);
        assert forall|k: int| 0 <= k < kept.len() implies free_of(#[trigger] kept[k], c) by {
            if k < nonblank(front).len() {
                assert(kept[k] == nonblank(front)[k]);
            } else {
                assert(kept[k] == lines[lines.len() - 1]);
            }
        }
    }
}

/// Splits `line` at every single space.
pub fn split_tokens(line: &str) -> (tokens: Vec<String>)
    ensures
        tokens.deep_view() == split_on(line@, ' '),
{
    let mut tokens: Vec<String> = Vec::new();
    let mut current = String::new();
    let ghost mut seen: Seq<char> = Seq::empty();
    for c in it: line.chars()
        invariant
            it.seq() == line@,
            seen == line@.take(it.index() as int),
            tokens.deep_view().push(current@) == split_on(seen, ' '),
    {
        proof {
            let next = line@.take(it.index() + 1);
            assert(next.drop_last() == seen);
            assert(next.last() == c);
            seen = next;
        }
        if c == ' ' {
            let ghost before = tokens.deep_view();
            tokens.push(current);
            current = String::new();
            assert(tokens.deep_view() == before.push(tokens@.last()@));
        } else {
            let ghost before = current@;
            current.push(c);
            assert(tokens.deep_view().push(before).drop_last() == tokens.deep_view());
        }
    }
    assert(seen == line@);
    let ghost before = tokens.deep_view();
    tokens.push(current);
    assert(tokens.deep_view() == before.push(tokens@.last()@));
    tokens
}

/// Cuts `text` into its lines.
pub fn split_lines(text: &str) -> (lines: Vec<String>)
    ensures
        lines.deep_view() == lines_of(text@),
{
    let mut lines: Vec<String> = Vec::new();
    let mut current = String::new();
    let mut pending_cr = false;
    let ghost mut seen: Seq<char> = Seq::empty();
    for c in it: text.chars()
        invariant
            it.seq() == text@,
            seen == text@.take(it.index() as int),
            split_on(seen, '\n').len() >= 1,
            lines.deep_view() == split_on(seen, '\n').drop_last().map_values(
                |line: Seq<char>| without_cr(line),
            ),
            split_on(seen, '\n').last() == if pending_cr {
                current@.push('\r')
            } else {
                current@
            },
            !pending_cr ==> current@.len() == 0 || current@.last() != '\r',
    {
        let ghost pieces = split_on(seen, '\n');
        proof {
            let next = text@.take(it.index() + 1);
            assert(next.drop_last() == seen);
            assert(next.last() == c);
            seen = next;
            lemma_split_on_nonempty(seen, '\n');
        }
        if c == '\n' {
            let ghost before = lines.deep_view();
            let ghost line = current@;
            lines.push(current);
            current = String::new();
            pending_cr = false;
            assert(without_cr(pieces.last()) == line) by {
                assert(line.push('\r').drop_last() == line);
            }
            assert(lines.deep_view() == before.push(line));
            assert(split_on(seen, '\n').drop_last() == pieces);
            assert(pieces == pieces.drop_last().push(pieces.last()));
        } else {
            if pending_cr {
                current.push('\r');
            }
            if c == '\r' {
                pending_cr = true;
            } else {
                current.push(c);
                pending_cr = false;
            }
            assert(split_on(seen, '\n').drop_last() == pieces.drop_last());
        }
    }
    assert(seen == text@);
    if pending_cr {
        current.push('\r');
    }
    if !current.as_str().is_empty() {
        let ghost before = lines.deep_view();
        lines.push(current);
        assert(lines.deep_view() == before.push(lines@.last()@));
    }
    lines
}

/// Adds to `out` the tokens of `tokens` with a single space between each two
/// neighbours.
pub fn push_joined(out: &mut String, tokens: &Vec<String>)
    ensures
        final(out)@ == old(out)@ + joined(tokens.deep_view(), ' '),
{
    let ghost parts = tokens.deep_view();
    proof {
        reveal_strlit(" ");
    }
    for k in 0..tokens.len()
        invariant
            parts == tokens.deep_view(),
            " "@ == seq![' '],
            out@ == old(out)@ + joined(parts.take(k as int), ' '),
    {
        if k > 0 {
            out.append(" ");
        }
        out.append(tokens[k].as_str());
        proof {
            let now = parts.take(k + 1);
            assert(now.drop_last() == parts.take(k as int));
            assert(now.last() == tokens[k as int]@);
        }
    }
    assert(parts.take(tokens.len() as int) == parts);
}

} // verus!
