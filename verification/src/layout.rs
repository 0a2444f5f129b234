//! The layout engine: given a multi-line block of text and the width and
//! height of a viewport, compute the string that shows the block moved to
//! the middle of that viewport, so that it appears roughly centered.
//!
//! The block is shifted right by prepending `floor(width / 2)` spaces to
//! each of its lines and shifted down by prepending `floor(height / 2)`
//! blank lines: its top-left corner lands on the viewport's middle cell.
//! Padding only ever adds whitespace; the block itself is never truncated
//! or reflowed, even when it is larger than the viewport.

use vstd::prelude::*;
use vstd::string::StrSliceExecFns;
use vstd::string::StringExecFns;

verus! {

/// A sequence of `n` copies of the character `c`.
pub open spec fn repeat_char(c: char, n: nat) -> Seq<char> {
    Seq::new(n, |i: int| c)
}

/// The segments of `s` separated by newline characters. There is always at
/// least one segment, and a trailing newline produces an empty final segment.
pub open spec fn spec_split(s: Seq<char>) -> Seq<Seq<char>>
    decreases s.len(),
{
    if s.len() == 0 {
        seq![s]
    } else if s.last() == '\n' {
        spec_split(s.drop_last()).push(Seq::empty())
    } else {
        let t = spec_split(s.drop_last());
        t.update(t.len() - 1, t.last().push(s.last()))
    }
}

/// The lines of `s`: the newline-separated segments, except that an empty
/// final segment (from a trailing newline, or from an empty `s`) is
/// dropped. A carriage return is a character like any other here: nothing
/// strips it from a line's end.
pub open spec fn spec_lines(s: Seq<char>) -> Seq<Seq<char>> {
    let segs = spec_split(s);
    if segs.last().len() == 0 {
        segs.drop_last()
    } else {
        segs
    }
}

/// The lines joined by single newlines, each line prefixed by `lp` spaces.
pub open spec fn join_padded(lines: Seq<Seq<char>>, lp: nat) -> Seq<char>
    decreases lines.len(),
{
    if lines.len() == 0 {
        Seq::empty()
    } else if lines.len() == 1 {
        repeat_char(' ', lp) + lines[0]
    } else {
        join_padded(lines.drop_last(), lp) + seq!['\n'] + repeat_char(' ', lp) + lines.last()
    }
}

/// The layout of `text` in a `width` x `height` viewport:
/// `floor(height/2)` blank lines, then the lines of `text`, each prefixed
/// by `floor(width/2)` spaces. The shift depends on the viewport alone,
/// with truncating division, whatever the block's own size.
pub open spec fn spec_layout(text: Seq<char>, width: int, height: int) -> Seq<char> {
    repeat_char('\n', (height / 2) as nat) + join_padded(spec_lines(text), (width / 2) as nat)
}

/// The views of a sequence of string slices.
pub open spec fn views_of(v: Seq<&str>) -> Seq<Seq<char>> {
    Seq::new(v.len(), |i: int| v[i]@)
}

/// Splitting never yields an empty sequence of segments.
pub proof fn lemma_split_len(s: Seq<char>)
    ensures
        spec_split(s).len() >= 1,
    decreases s.len(),
{
    if s.len() > 0 {
        lemma_split_len(s.drop_last());
    }
}

/// No segment produced by splitting contains a newline.
pub proof fn lemma_split_no_newline(s: Seq<char>)
    ensures
        forall|k: int|
            0 <= k < spec_split(s).len() ==> !(#[trigger] spec_split(s)[k]).contains('\n'),
    decreases s.len(),
{
    if s.len() == 0 {
        assert forall|k: int|
            0 <= k < spec_split(s).len() implies !(#[trigger] spec_split(s)[k]).contains(
            '\n',
        ) by {
            assert(spec_split(s)[k] == s);
        }
    } else if s.last() == '\n' {
        lemma_split_no_newline(s.drop_last());
        let prev = spec_split(s.drop_last());
        assert forall|k: int|
            0 <= k < spec_split(s).len() implies !(#[trigger] spec_split(s)[k]).contains(
            '\n',
        ) by {
            if k < prev.len() {
                assert(spec_split(s)[k] == prev[k]);
            } else {
                assert(spec_split(s)[k] == Seq::<char>::empty());
            }
        }
    } else {
        lemma_split_no_newline(s.drop_last());
        lemma_split_len(s.drop_last());
        let prev = spec_split(s.drop_last());
        let ext = prev.last().push(s.last());
        assert(!ext.contains('\n')) by {
            if ext.contains('\n') {
                let j = choose|j: int| 0 <= j < ext.len() && ext[j] == '\n';
                assert(j < ext.len() - 1);
                assert(prev.last()[j] == '\n');
                assert(prev[prev.len() - 1].contains('\n'));
            }
        }
        assert forall|k: int|
            0 <= k < spec_split(s).len() implies !(#[trigger] spec_split(s)[k]).contains(
            '\n',
        ) by {
            if k < prev.len() - 1 {
                assert(spec_split(s)[k] == prev[k]);
            } else {
                assert(spec_split(s)[k] == ext);
            }
        }
    }
}

/// A text without newlines splits into itself as the only segment.
pub proof fn lemma_split_single(s: Seq<char>)
    requires
        !s.contains('\n'),
    ensures
        spec_split(s) == seq![s],
    decreases s.len(),
{
    if s.len() == 0 {
    } else {
        assert(s.last() != '\n') by {
            if s.last() == '\n' {
                assert(s[s.len() - 1] == '\n');
                assert(s.contains('\n'));
            }
        }
        assert(!s.drop_last().contains('\n')) by {
            if s.drop_last().contains('\n') {
                let j = choose|j: int| 0 <= j < s.drop_last().len() && s.drop_last()[j] == '\n';
                assert(s[j] == '\n');
                assert(s.contains('\n'));
            }
        }
        lemma_split_single(s.drop_last());
        assert(s.drop_last().push(s.last()) =~= s);
        assert(spec_split(s) =~~= seq![s]);
    }
}

/// A nonempty text that does not end in a newline keeps all its segments as
/// lines: the final segment is nonempty, so nothing is dropped.
pub proof fn lemma_lines_whole(s: Seq<char>)
    requires
        s.len() > 0,
        s.last() != '\n',
    ensures
        spec_lines(s) == spec_split(s),
{
    lemma_split_len(s.drop_last());
    let t = spec_split(s.drop_last());
    assert(spec_split(s) == t.update(t.len() - 1, t.last().push(s.last())));
    assert(spec_split(s).last() == t.last().push(s.last()));
}

/// Joining the segments of `s` with newlines, with no padding, rebuilds `s`.
pub proof fn lemma_join_split(s: Seq<char>)
    ensures
        join_padded(spec_split(s), 0) == s,
    decreases s.len(),
{
    if s.len() == 0 {
        assert(join_padded(spec_split(s), 0) =~= s);
    } else {
        lemma_join_split(s.drop_last());
        lemma_split_len(s.drop_last());
        let a = spec_split(s.drop_last());
        if s.last() == '\n' {
            let u = a.push(Seq::<char>::empty());
            assert(u.drop_last() =~~= a);
            assert(join_padded(u, 0) =~= s);
        } else {
            let ext = a.last().push(s.last());
            let u = a.update(a.len() - 1, ext);
            if a.len() == 1 {
                assert(join_padded(a, 0) =~= a[0]);
                assert(a[0] == s.drop_last());
                assert(u.len() == 1);
                assert(u[0] == ext);
                assert(a.last() == a[0]);
                assert(ext =~= s);
                assert(join_padded(u, 0) == repeat_char(' ', 0) + u[0]);
                assert(repeat_char(' ', 0) + ext =~= s);
                assert(join_padded(u, 0) == s);
            } else {
                assert(u.drop_last() =~~= a.drop_last());
                assert(u.last() == ext);
                let base = join_padded(a.drop_last(), 0) + seq!['\n'] + repeat_char(' ', 0)
                    + a.last();
                assert(join_padded(a, 0) == base);
                assert(base == s.drop_last());
                assert(join_padded(u, 0) == join_padded(a.drop_last(), 0) + seq!['\n']
                    + repeat_char(' ', 0) + ext);
                assert(join_padded(u, 0) =~= base.push(s.last()));
                assert(base.push(s.last()) =~= s);
            }
        }
    }
}

/// The layout in a zero-width, zero-height viewport is the text itself:
/// both padding amounts are zero, and nothing is truncated. (A trailing
/// newline is the one exception this statement leaves out: line splitting
/// absorbs it, as it does in the layout of any viewport.)
pub proof fn lemma_layout_noop(text: Seq<char>)
    requires
        text.len() == 0 || text.last() != '\n',
    ensures
        spec_layout(text, 0, 0) == text,
{
    if text.len() == 0 {
        assert(spec_lines(text) =~~= Seq::<Seq<char>>::empty());
        assert(spec_layout(text, 0, 0) =~= text);
    } else {
        lemma_lines_whole(text);
        lemma_join_split(text);
        assert(spec_layout(text, 0, 0) =~= text);
    }
}

/// For a single-line text the layout is exactly the top padding, then the
/// left padding, then the text itself. For a one-character text the number
/// of leading spaces on its line is `floor(width/2) - floor(n/2)` where `n`
/// is the text's length; a longer single line still gets `floor(width/2)`
/// spaces, so the difference formula holds only while `floor(n/2)` is zero.
pub proof fn lemma_left_padding_exact(text: Seq<char>, width: int, height: int)
    requires
        0 <= width,
        0 <= height,
        text.len() > 0,
        !text.contains('\n'),
    ensures
        spec_layout(text, width, height) == repeat_char('\n', (height / 2) as nat)
            + repeat_char(' ', (width / 2) as nat) + text,
        text.len() == 1 ==> width / 2 == width / 2 - text.len() as int / 2,
{
    lemma_split_single(text);
    assert(spec_lines(text) == seq![text]);
    assert(spec_lines(text).len() == 1);
    assert(join_padded(seq![text], (width / 2) as nat) == repeat_char(
        ' ',
        (width / 2) as nat,
    ) + text);
    assert(spec_layout(text, width, height) =~= repeat_char('\n', (height / 2) as nat)
        + repeat_char(' ', (width / 2) as nat) + text);
}

/// A padded join starts with the left padding of the first line, then the
/// first line itself.
pub proof fn lemma_join_prefix(lines: Seq<Seq<char>>, lp: nat)
    requires
        lines.len() > 0,
    ensures
        join_padded(lines, lp).len() >= lp + lines[0].len(),
        forall|i: int| 0 <= i < lp ==> join_padded(lines, lp)[i] == ' ',
        forall|j: int|
            0 <= j < lines[0].len() ==> join_padded(lines, lp)[lp + j] == lines[0][j],
    decreases lines.len(),
{
    if lines.len() == 1 {
        assert(join_padded(lines, lp) == repeat_char(' ', lp) + lines[0]);
    } else {
        lemma_join_prefix(lines.drop_last(), lp);
        assert(lines.drop_last()[0] == lines[0]);
    }
}

/// The layout has exactly `floor(height/2)` leading blank lines: that many
/// newlines, and then a character that is not a newline. For a one-line
/// text that count is `floor(height/2) - floor(lines(text)/2)`; a taller
/// block is still shifted by `floor(height/2)`, so the difference formula
/// holds only while `floor(lines(text)/2)` is zero. (A text whose first
/// line is empty is left out: its own first character is already a
/// newline.)
pub proof fn lemma_top_padding_exact(text: Seq<char>, width: int, height: int)
    requires
        0 <= width,
        0 <= height,
        spec_lines(text).len() > 0,
        spec_lines(text)[0].len() > 0,
    ensures
        ({
            let tp = height / 2;
            let r = spec_layout(text, width, height);
            &&& r.len() > tp
            &&& (forall|i: int| 0 <= i < tp ==> r[i] == '\n')
            &&& r[tp] != '\n'
        }),
        spec_lines(text).len() == 1 ==> height / 2 == height / 2 - spec_lines(
            text,
        ).len() as int / 2,
{
    let lines = spec_lines(text);
    let segs = spec_split(text);
    let lp = (width / 2) as nat;
    let tp = height / 2;
    let j = join_padded(lines, lp);
    let r = spec_layout(text, width, height);
    lemma_join_prefix(lines, lp);
    lemma_split_no_newline(text);
    lemma_split_len(text);
    if segs.last().len() == 0 {
        assert(lines == segs.drop_last());
        assert(lines[0] == segs[0]);
    } else {
        assert(lines == segs);
    }
    assert(!segs[0].contains('\n'));
    assert(lines[0][0] != '\n') by {
        if lines[0][0] == '\n' {
            assert(segs[0].contains('\n'));
        }
    }
    assert(r == repeat_char('\n', tp as nat) + j);
    assert(forall|i: int| 0 <= i < tp ==> r[i] == '\n');
    if lp > 0 {
        assert(j[0] == ' ');
    } else {
        assert(j[0] == lines[0][0]);
    }
    assert(r[tp] == j[0]);
}

/// The characters of a string other than spaces and newlines: its visible
/// content, which padding must not disturb.
pub open spec fn visible(s: Seq<char>) -> Seq<char> {
    s.filter(|c: char| c != ' ' && c != '\n')
}

/// The visible content of each line, concatenated in order.
pub open spec fn visible_cat(lines: Seq<Seq<char>>) -> Seq<char>
    decreases lines.len(),
{
    if lines.len() == 0 {
        Seq::empty()
    } else {
        visible_cat(lines.drop_last()) + visible(lines.last())
    }
}

/// The empty string has no visible content.
pub proof fn lemma_visible_empty()
    ensures
        visible(Seq::<char>::empty()) == Seq::<char>::empty(),
{
    reveal(Seq::filter);
}

/// A single space or newline has no visible content.
pub proof fn lemma_visible_single(c: char)
    requires
        c == ' ' || c == '\n',
    ensures
        visible(seq![c]) == Seq::<char>::empty(),
{
    reveal(Seq::filter);
    lemma_visible_empty();
    assert(seq![c].drop_last() =~= Seq::<char>::empty());
    assert(seq![c].last() == c);
}

/// Repeated spaces or newlines have no visible content.
pub proof fn lemma_visible_repeat(c: char, n: nat)
    requires
        c == ' ' || c == '\n',
    ensures
        visible(repeat_char(c, n)) == Seq::<char>::empty(),
    decreases n,
{
    reveal(Seq::filter);
    if n == 0 {
        assert(repeat_char(c, n) =~= Seq::<char>::empty());
        lemma_visible_empty();
    } else {
        lemma_visible_repeat(c, (n - 1) as nat);
        assert(repeat_char(c, n).drop_last() =~= repeat_char(c, (n - 1) as nat));
        assert(repeat_char(c, n).last() == c);
    }
}

/// A padded join shows exactly the visible content of its lines, in order:
/// the added spaces and newline separators contribute nothing.
pub proof fn lemma_visible_join(lines: Seq<Seq<char>>, lp: nat)
    ensures
        visible(join_padded(lines, lp)) == visible_cat(lines),
    decreases lines.len(),
{
    broadcast use Seq::filter_distributes_over_add;

    if lines.len() == 0 {
        lemma_visible_empty();
    } else if lines.len() == 1 {
        lemma_visible_repeat(' ', lp);
        assert(join_padded(lines, lp) == repeat_char(' ', lp) + lines[0]);
        assert(visible(join_padded(lines, lp)) =~= visible(lines[0]));
        assert(visible_cat(lines) =~= visible(lines[0])) by {
            assert(lines.drop_last().len() == 0);
            assert(visible_cat(lines.drop_last()) == Seq::<char>::empty());
            assert(lines.last() == lines[0]);
        }
    } else {
        lemma_visible_join(lines.drop_last(), lp);
        lemma_visible_repeat(' ', lp);
        lemma_visible_single('\n');
        assert(join_padded(lines, lp) == join_padded(lines.drop_last(), lp) + seq!['\n']
            + repeat_char(' ', lp) + lines.last());
        assert(visible(join_padded(lines, lp)) =~= visible_cat(lines.drop_last()) + visible(
            lines.last(),
        ));
    }
}

/// Padding never disturbs content: the layout shows exactly the characters
/// of the text that are not spaces or newlines, in the same relative order.
pub proof fn lemma_layout_keeps_content(text: Seq<char>, width: int, height: int)
    requires
        0 <= width,
        0 <= height,
    ensures
        visible(spec_layout(text, width, height)) == visible(text),
{
    broadcast use Seq::filter_distributes_over_add;

    let lines = spec_lines(text);
    let segs = spec_split(text);
    let lp = (width / 2) as nat;
    let tp = (height / 2) as nat;
    lemma_visible_repeat('\n', tp);
    lemma_visible_join(lines, lp);
    assert(spec_layout(text, width, height) == repeat_char('\n', tp) + join_padded(lines, lp));
    assert(visible(spec_layout(text, width, height)) =~= visible_cat(lines));
    lemma_join_split(text);
    lemma_visible_join(segs, 0);
    assert(visible(text) == visible_cat(segs));
    if segs.last().len() == 0 {
        lemma_split_len(text);
        assert(lines == segs.drop_last());
        assert(segs.last() =~= Seq::<char>::empty());
        lemma_visible_empty();
        assert(visible_cat(segs) =~= visible_cat(lines));
    } else {
        assert(lines == segs);
    }
}

/// Appends `n` copies of the single-character string `piece` to `out`.
fn append_copies(out: &mut String, piece: &str, n: usize)
    requires
        piece@.len() == 1,
    ensures
        final(out)@ == old(out)@ + repeat_char(piece@[0], n as nat),
{
    let mut i: usize = 0;
    while i < n
        invariant
            piece@.len() == 1,
            i <= n,
            out@ == old(out)@ + repeat_char(piece@[0], i as nat),
        decreases n - i,
    {
        out.append(piece);
        i = i + 1;
        proof {
            assert(out@ =~= old(out)@ + repeat_char(piece@[0], i as nat));
        }
    }
    proof {
        assert(out@ =~= old(out)@ + repeat_char(piece@[0], n as nat));
    }
}

/// Splits `text` into its newline-separated segments.
fn split_segments<'a>(text: &'a str) -> (segs: Vec<&'a str>)
    ensures
        views_of(segs@) == spec_split(text@),
{
    let n: usize = text.unicode_len();
    let mut segs: Vec<&'a str> = Vec::new();
    let mut start: usize = 0;
    let mut i: usize = 0;
    proof {
        assert(views_of(segs@).push(text@.subrange(0, 0)) =~~= spec_split(text@.take(0)));
    }
    while i < n
        invariant
            n == text@.len(),
            start <= i <= n,
            views_of(segs@).push(text@.subrange(start as int, i as int)) == spec_split(
                text@.take(i as int),
            ),
        decreases n - i,
    {
        let c: char = text.get_char(i);
        proof {
            assert(text@.take(i as int + 1).drop_last() =~= text@.take(i as int));
            assert(text@.take(i as int + 1).last() == text@[i as int]);
        }
        if c == '\n' {
            let seg: &'a str = text.substring_char(start, i);
            segs.push(seg);
            proof {
                assert(views_of(segs@) =~~= spec_split(text@.take(i as int)));
                assert(spec_split(text@.take(i as int + 1)) == spec_split(
                    text@.take(i as int),
                ).push(Seq::<char>::empty()));
                assert(views_of(segs@).push(text@.subrange(i as int + 1, i as int + 1))
                    =~~= spec_split(text@.take(i as int + 1)));
            }
            start = i + 1;
        } else {
            proof {
                let t = spec_split(text@.take(i as int));
                lemma_split_len(text@.take(i as int));
                assert(spec_split(text@.take(i as int + 1)) == t.update(
                    t.len() - 1,
                    t.last().push(text@[i as int]),
                ));
                assert(t.last() == text@.subrange(start as int, i as int));
                assert(t.last().push(text@[i as int]) =~= text@.subrange(
                    start as int,
                    i as int + 1,
                ));
                assert(views_of(segs@).push(text@.subrange(start as int, i as int + 1))
                    =~~= t.update(t.len() - 1, t.last().push(text@[i as int])));
            }
        }
        i = i + 1;
    }
    let last: &'a str = text.substring_char(start, n);
    segs.push(last);
    proof {
        assert(text@.take(n as int) =~= text@);
        assert(views_of(segs@) =~~= spec_split(text@));
    }
    segs
}

/// Moves `text` to the middle of a viewport that is `x` columns wide and
/// `y` rows tall: prepends `y / 2` blank lines and `x / 2` spaces to each
/// line, so that the block's top-left corner lands on the viewport's middle
/// cell, without ever truncating or reflowing the block.
pub fn pad_to_position(text: &str, x: i32, y: i32) -> (res: String)
    requires
        0 <= x,
        0 <= y,
    ensures
        res@ == spec_layout(text@, x as int, y as int),
{
    let mut segs = split_segments(text);
    proof {
        lemma_split_len(text@);
        assert(segs@.len() >= 1);
    }
    let k: usize = segs.len();
    if segs[k - 1].unicode_len() == 0 {
        segs.pop();
    }
    proof {
        assert(views_of(segs@) =~~= spec_lines(text@));
    }
    let lp: usize = (x / 2) as usize;
    let tp: usize = (y / 2) as usize;
    proof {
        assert(lp as int == x as int / 2);
        assert(tp as int == y as int / 2);
        reveal_strlit("\n");
        reveal_strlit(" ");
    }
    let mut out = String::new();
    append_copies(&mut out, "\n", tp);
    proof {
        assert(out@ =~= repeat_char('\n', tp as nat) + join_padded(
            spec_lines(text@).take(0),
            lp as nat,
        ));
    }
    let mut i: usize = 0;
    while i < segs.len()
        invariant
            views_of(segs@) == spec_lines(text@),
            i <= segs@.len(),
            out@ == repeat_char('\n', tp as nat) + join_padded(
                spec_lines(text@).take(i as int),
                lp as nat,
            ),
        decreases segs@.len() - i,
    {
        proof {
            reveal_strlit("\n");
            reveal_strlit(" ");
        }
        if i > 0 {
            out.append("\n");
        }
        append_copies(&mut out, " ", lp);
        out.append(segs[i]);
        proof {
            let lines = spec_lines(text@);
            assert(lines.take(i as int + 1).drop_last() =~~= lines.take(i as int));
            assert(lines.take(i as int + 1).last() == lines[i as int]);
            assert(segs@[i as int]@ == lines[i as int]);
            if i == 0 {
                assert(out@ =~= repeat_char('\n', tp as nat) + join_padded(
                    lines.take(1),
                    lp as nat,
                ));
            } else {
                assert(out@ =~= repeat_char('\n', tp as nat) + join_padded(
                    lines.take(i as int + 1),
                    lp as nat,
                ));
            }
        }
        i = i + 1;
    }
    proof {
        let lines = spec_lines(text@);
        assert(lines.take(lines.len() as int) =~~= lines);
        assert(out@ =~= spec_layout(text@, x as int, y as int));
    }
    out
}

} // verus!
