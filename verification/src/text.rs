//! The mathematical model of buffer text.
//!
//! A buffer holds a non-empty sequence of lines, none of which contains a
//! newline. Serialized content is the lines joined with `'\n'`; parsing
//! content back splits on `'\n'`. A trailing newline therefore corresponds
//! to one final empty line, and the empty string to a single empty line.
//!
//! [`split_lines`] and [`join_lines`] define that correspondence, and the
//! lemmas here prove it is a bijection between strings and well-formed
//! line sequences. [`splice_lines`] defines the effect of a range edit.

use vstd::prelude::*;

use crate::position::{pos_le, Position};

verus! {

/// A single buffer line: no newline characters.
pub open spec fn line_ok(l: Seq<char>) -> bool {
    forall|i: int| 0 <= i < l.len() ==> l[i] != '\n'
}

/// A well-formed buffer: at least one line, each free of newlines.
pub open spec fn lines_ok(ls: Seq<Seq<char>>) -> bool {
    &&& ls.len() >= 1
    &&& forall|i: int| 0 <= i < ls.len() ==> line_ok(#[trigger] ls[i])
}

/// Index of the first newline in `t`, or `t.len()` if there is none.
pub open spec fn first_nl(t: Seq<char>) -> int
    decreases t.len(),
{
    if t.len() == 0 {
        0
    } else if t[0] == '\n' {
        0
    } else {
        1 + first_nl(t.drop_first())
    }
}

/// The lines of `t`: maximal newline-free segments, split on `'\n'`.
/// Always at least one segment; `""` splits into one empty segment.
pub open spec fn split_lines(t: Seq<char>) -> Seq<Seq<char>>
    decreases t.len(),
{
    let k = first_nl(t);
    if 0 <= k < t.len() {
        seq![t.take(k)] + split_lines(t.skip(k + 1))
    } else {
        seq![t]
    }
}

/// The serialized content of `ls`: the lines joined with `'\n'`.
pub open spec fn join_lines(ls: Seq<Seq<char>>) -> Seq<char>
    decreases ls.len(),
{
    if ls.len() == 0 {
        Seq::empty()
    } else if ls.len() == 1 {
        ls[0]
    } else {
        ls[0] + seq!['\n'] + join_lines(ls.drop_first())
    }
}

/// `first_nl` points at the first newline: everything before it is
/// newline-free, and it is `t.len()` exactly when `t` has no newline.
pub proof fn lemma_first_nl(t: Seq<char>)
    ensures
        0 <= first_nl(t) <= t.len(),
        forall|i: int| 0 <= i < first_nl(t) ==> t[i] != '\n',
        first_nl(t) < t.len() ==> t[first_nl(t)] == '\n',
    decreases t.len(),
{
    if t.len() > 0 && t[0] != '\n' {
        lemma_first_nl(t.drop_first());
        assert forall|i: int| 0 <= i < first_nl(t) implies t[i] != '\n' by {
            if i > 0 {
                assert(t.drop_first()[i - 1] != '\n');
            }
        }
    }
}

/// `first_nl` is determined by its characterization.
pub proof fn lemma_first_nl_is(t: Seq<char>, k: int)
    requires
        0 <= k <= t.len(),
        forall|i: int| 0 <= i < k ==> t[i] != '\n',
        k < t.len() ==> t[k] == '\n',
    ensures
        first_nl(t) == k,
    decreases t.len(),
{
    if t.len() > 0 && t[0] != '\n' {
        lemma_first_nl_is(t.drop_first(), k - 1);
    }
}

/// Splitting is at least one segment, and every segment is newline-free.
pub proof fn lemma_split_lines_wf(t: Seq<char>)
    ensures
        split_lines(t).len() >= 1,
        lines_ok(split_lines(t)),
        split_lines(t).len() <= t.len() + 1,
        split_lines(t).last().len() <= t.len(),
    decreases t.len(),
{
    lemma_first_nl(t);
    let k = first_nl(t);
    if k < t.len() {
        lemma_split_lines_wf(t.skip(k + 1));
        assert forall|i: int| 0 <= i < split_lines(t).len() implies line_ok(
            #[trigger] split_lines(t)[i],
        ) by {
            if i == 0 {
                assert(forall|j: int| 0 <= j < k ==> t.take(k)[j] == t[j]);
            } else {
                assert(split_lines(t)[i] == split_lines(t.skip(k + 1))[i - 1]);
            }
        }
    }
}

/// Joining after prepending a segment: the segment, a newline, the rest.
pub proof fn lemma_join_lines_cons(x: Seq<char>, rest: Seq<Seq<char>>)
    requires
        rest.len() >= 1,
    ensures
        join_lines(seq![x] + rest) == x + seq!['\n'] + join_lines(rest),
{
    assert((seq![x] + rest).drop_first() =~= rest);
    assert((seq![x] + rest)[0] == x);
}

/// Joining after appending a segment: the rest, a newline, the segment.
pub proof fn lemma_join_lines_push(ls: Seq<Seq<char>>, l: Seq<char>)
    requires
        ls.len() >= 1,
    ensures
        join_lines(ls.push(l)) == join_lines(ls) + seq!['\n'] + l,
    decreases ls.len(),
{
    if ls.len() == 1 {
        assert(ls.push(l).drop_first() =~= seq![l]);
        assert(join_lines(seq![l]) == l);
        assert(join_lines(ls.push(l)) =~= ls[0] + seq!['\n'] + l);
    } else {
        assert(ls.push(l).drop_first() =~= ls.drop_first().push(l));
        lemma_join_lines_push(ls.drop_first(), l);
        assert(join_lines(ls.push(l)) =~= join_lines(ls) + seq!['\n'] + l);
    }
}

/// Joining distributes over concatenation, gluing with one newline.
pub proof fn lemma_join_lines_concat(x: Seq<Seq<char>>, y: Seq<Seq<char>>)
    requires
        x.len() >= 1,
        y.len() >= 1,
    ensures
        join_lines(x + y) == join_lines(x) + seq!['\n'] + join_lines(y),
    decreases x.len(),
{
    if x.len() == 1 {
        assert(seq![x[0]] + y =~= x + y);
        lemma_join_lines_cons(x[0], y);
    } else {
        assert((x + y).drop_first() =~= x.drop_first() + y);
        assert((x + y)[0] == x[0]);
        lemma_join_lines_concat(x.drop_first(), y);
        assert(join_lines(x + y) =~= join_lines(x) + seq!['\n'] + join_lines(y));
    }
}

/// Extending the first segment on the left extends the joined text on the left.
pub proof fn lemma_join_update_first(ls: Seq<Seq<char>>, pre: Seq<char>)
    requires
        ls.len() >= 1,
    ensures
        join_lines(ls.update(0, pre + ls[0])) == pre + join_lines(ls),
{
    let u = ls.update(0, pre + ls[0]);
    if ls.len() == 1 {
        assert(join_lines(u) =~= pre + join_lines(ls));
    } else {
        assert(u.drop_first() =~= ls.drop_first());
        assert(join_lines(u) =~= pre + join_lines(ls));
    }
}

/// Extending the last segment on the right extends the joined text on the right.
pub proof fn lemma_join_update_last(ls: Seq<Seq<char>>, suf: Seq<char>)
    requires
        ls.len() >= 1,
    ensures
        join_lines(ls.update(ls.len() - 1, ls.last() + suf)) == join_lines(ls) + suf,
    decreases ls.len(),
{
    let u = ls.update(ls.len() - 1, ls.last() + suf);
    if ls.len() == 1 {
        assert(join_lines(u) =~= join_lines(ls) + suf);
    } else {
        assert(u.drop_first() =~= ls.drop_first().update(ls.len() - 2, ls.last() + suf));
        assert(ls.drop_first().last() == ls.last());
        lemma_join_update_last(ls.drop_first(), suf);
        assert(join_lines(u) =~= join_lines(ls) + suf);
    }
}

/// Serializing the lines of a text gives the text back.
pub proof fn lemma_split_then_join(t: Seq<char>)
    ensures
        join_lines(split_lines(t)) == t,
    decreases t.len(),
{
    lemma_first_nl(t);
    let k = first_nl(t);
    if k < t.len() {
        lemma_split_lines_wf(t.skip(k + 1));
        lemma_join_lines_cons(t.take(k), split_lines(t.skip(k + 1)));
        lemma_split_then_join(t.skip(k + 1));
        assert(join_lines(split_lines(t)) =~= t);
    }
}

/// Splitting the serialization of well-formed lines gives the lines back.
pub proof fn lemma_join_then_split(ls: Seq<Seq<char>>)
    requires
        lines_ok(ls),
    ensures
        split_lines(join_lines(ls)) == ls,
    decreases ls.len(),
{
    let t = join_lines(ls);
    if ls.len() == 1 {
        lemma_first_nl_is(t, t.len() as int);
        assert(split_lines(t) =~~= ls);
    } else {
        let rest = ls.drop_first();
        lemma_join_lines_cons(ls[0], rest);
        assert(seq![ls[0]] + rest =~= ls);
        let k = ls[0].len() as int;
        assert forall|i: int| 0 <= i < k implies t[i] != '\n' by {
            assert(t[i] == ls[0][i]);
        }
        assert(t[k] == '\n');
        lemma_first_nl_is(t, k);
        assert(t.take(k) =~= ls[0]);
        assert(t.skip(k + 1) =~= join_lines(rest));
        assert(forall|i: int| 0 <= i < rest.len() ==> rest[i] == ls[i + 1]);
        lemma_join_then_split(rest);
        assert(split_lines(t) =~~= ls);
    }
}

/// How splitting grows as text grows one character at a time: a newline
/// opens a fresh empty segment, any other character extends the last one.
pub proof fn lemma_split_lines_push(t: Seq<char>, c: char)
    ensures
        c == '\n' ==> split_lines(t.push(c)) == split_lines(t).push(Seq::<char>::empty()),
        c != '\n' ==> split_lines(t.push(c)) == split_lines(t).update(
            split_lines(t).len() - 1,
            split_lines(t).last().push(c),
        ),
    decreases t.len(),
{
    lemma_first_nl(t);
    let k = first_nl(t);
    if k == t.len() {
        if c == '\n' {
            lemma_first_nl_is(t.push(c), t.len() as int);
            assert(t.push(c).take(t.len() as int) =~= t);
            assert(t.push(c).skip(t.len() as int + 1) =~= Seq::<char>::empty());
            assert(split_lines(Seq::<char>::empty()) =~~= seq![Seq::<char>::empty()]);
            assert(split_lines(t.push(c)) =~~= split_lines(t).push(Seq::<char>::empty()));
        } else {
            lemma_first_nl_is(t.push(c), t.len() as int + 1);
            assert(split_lines(t.push(c)) =~~= split_lines(t).update(
                split_lines(t).len() - 1,
                split_lines(t).last().push(c),
            ));
        }
    } else {
        lemma_first_nl_is(t.push(c), k);
        assert(t.push(c).take(k) =~= t.take(k));
        assert(t.push(c).skip(k + 1) =~= t.skip(k + 1).push(c));
        lemma_split_lines_push(t.skip(k + 1), c);
        lemma_split_lines_wf(t.skip(k + 1));
        if c == '\n' {
            assert(split_lines(t.push(c)) =~~= split_lines(t).push(Seq::<char>::empty()));
        } else {
            assert(split_lines(t.push(c)) =~~= split_lines(t).update(
                split_lines(t).len() - 1,
                split_lines(t).last().push(c),
            ));
        }
    }
}

/// How splitting distributes over concatenation: the seam glues the last
/// segment of `x` to the first segment of `y`, and everything else keeps
/// its shape.
pub proof fn lemma_split_lines_concat(x: Seq<char>, y: Seq<char>)
    ensures
        split_lines(x + y) == split_lines(x).drop_last() + seq![
            split_lines(x).last() + split_lines(y).first(),
        ] + split_lines(y).drop_first(),
    decreases x.len(),
{
    lemma_first_nl(x);
    lemma_first_nl(y);
    lemma_split_lines_wf(x);
    lemma_split_lines_wf(y);
    let kx = first_nl(x);
    if kx == x.len() {
        let ky = first_nl(y);
        if ky == y.len() {
            lemma_first_nl_is(x + y, x.len() as int + y.len());
            assert(split_lines(x + y) =~~= split_lines(x).drop_last() + seq![
                split_lines(x).last() + split_lines(y).first(),
            ] + split_lines(y).drop_first());
        } else {
            lemma_first_nl_is(x + y, x.len() as int + ky);
            assert((x + y).take(x.len() as int + ky) =~= x + y.take(ky));
            assert((x + y).skip(x.len() as int + ky + 1) =~= y.skip(ky + 1));
            assert(split_lines(x + y) =~~= split_lines(x).drop_last() + seq![
                split_lines(x).last() + split_lines(y).first(),
            ] + split_lines(y).drop_first());
        }
    } else {
        lemma_first_nl_is(x + y, kx);
        assert((x + y).take(kx) =~= x.take(kx));
        assert((x + y).skip(kx + 1) =~= x.skip(kx + 1) + y);
        lemma_split_lines_concat(x.skip(kx + 1), y);
        lemma_split_lines_wf(x.skip(kx + 1));
        assert(split_lines(x + y) =~~= split_lines(x).drop_last() + seq![
            split_lines(x).last() + split_lines(y).first(),
        ] + split_lines(y).drop_first());
    }
}

/// Splits `text` into its lines, as [`split_lines`] describes.
pub fn split_text(text: &str) -> (v: Vec<String>)
    ensures
        v.deep_view() == split_lines(text@),
        v.len() >= 1,
{
    let n: usize = text.unicode_len();
    let mut v: Vec<String> = Vec::new();
    let mut seg_start: usize = 0;
    let mut i: usize = 0;
    proof {
        assert(text@.take(0) =~= Seq::<char>::empty());
        assert(v.deep_view().push(text@.subrange(0, 0)) =~~= split_lines(text@.take(0)));
    }
    while i < n
        invariant
            0 <= seg_start <= i <= n,
            n == text@.len(),
            v.deep_view().push(text@.subrange(seg_start as int, i as int)) =~~= split_lines(
                text@.take(i as int),
            ),
        decreases n - i,
    {
        let c = text.get_char(i);
        proof {
            lemma_split_lines_push(text@.take(i as int), c);
            assert(text@.take(i + 1) =~= text@.take(i as int).push(text@[i as int]));
        }
        if c == '\n' {
            v.push(text.substring_char(seg_start, i).to_owned());
            seg_start = i + 1;
        }
        proof {
            if c != '\n' {
                assert(text@.subrange(seg_start as int, i + 1) =~= text@.subrange(
                    seg_start as int,
                    i as int,
                ).push(text@[i as int]));
            }
            assert(v.deep_view().push(text@.subrange(seg_start as int, i + 1)) =~~= split_lines(
                text@.take(i + 1),
            ));
        }
        i = i + 1;
    }
    proof {
        assert(text@.take(n as int) =~= text@);
    }
    v.push(text.substring_char(seg_start, n).to_owned());
    proof {
        lemma_split_lines_wf(text@);
        assert(v.deep_view() =~~= split_lines(text@));
    }
    v
}

/// Joins `lines` with newlines, as [`join_lines`] describes.
pub fn join_text(lines: &Vec<String>) -> (s: String)
    requires
        lines.len() >= 1,
    ensures
        s@ == join_lines(lines.deep_view()),
{
    let mut s: String = lines[0].clone();
    let mut i: usize = 1;
    proof {
        assert(lines.deep_view().take(1) =~~= seq![lines.deep_view()[0]]);
        assert(s@ == join_lines(lines.deep_view().take(1)));
    }
    while i < lines.len()
        invariant
            1 <= i <= lines.len(),
            s@ == join_lines(lines.deep_view().take(i as int)),
        decreases lines.len() - i,
    {
        proof {
            reveal_strlit("\n");
        }
        s.append("\n");
        s.append(lines[i].as_str());
        proof {
            lemma_join_lines_push(lines.deep_view().take(i as int), lines.deep_view()[i as int]);
            assert(lines.deep_view().take(i + 1) =~~= lines.deep_view().take(i as int).push(
                lines.deep_view()[i as int],
            ));
            assert("\n"@ =~= seq!['\n']);
            assert(s@ == join_lines(lines.deep_view().take(i + 1)));
        }
        i = i + 1;
    }
    proof {
        assert(lines.deep_view().take(lines.len() as int) =~~= lines.deep_view());
    }
    s
}

/// `p` addresses a line of `ls`, at or before that line's insertion point.
pub open spec fn pos_valid(ls: Seq<Seq<char>>, p: Position) -> bool {
    p.row < ls.len() && p.col <= ls[p.row as int].len()
}

/// The effect of a range edit: the text between positions `a` and `b`
/// (half-open, `a <= b`) is replaced by the segments `ins`. The part of
/// line `a.row` before `a.col` is glued to the first inserted segment and
/// the part of line `b.row` from `b.col` on to the last one; fully covered
/// lines disappear.
pub open spec fn splice_lines(
    ls: Seq<Seq<char>>,
    a: Position,
    b: Position,
    ins: Seq<Seq<char>>,
) -> Seq<Seq<char>> {
    let pre = ls[a.row as int].take(a.col as int);
    let suf = ls[b.row as int].skip(b.col as int);
    let mid0 = ins.update(0, pre + ins[0]);
    let mid = mid0.update(mid0.len() - 1, mid0.last() + suf);
    ls.take(a.row as int) + mid + ls.skip(b.row as int + 1)
}

/// The serialized content strictly before `p`: whole lines above, and the
/// part of `p`'s line left of `p.col`.
pub open spec fn content_up_to(ls: Seq<Seq<char>>, p: Position) -> Seq<char> {
    join_lines(ls.take(p.row as int).push(ls[p.row as int].take(p.col as int)))
}

/// The serialized content from `p` on: the part of `p`'s line from
/// `p.col`, and whole lines below.
pub open spec fn content_from(ls: Seq<Seq<char>>, p: Position) -> Seq<char> {
    join_lines(seq![ls[p.row as int].skip(p.col as int)] + ls.skip(p.row as int + 1))
}

/// Splice composition: serializing a spliced buffer yields exactly
/// `prefix + inserted text + suffix`, the prefix being the content up to
/// the edit's start and the suffix the content from its end.
pub proof fn lemma_splice_content(
    ls: Seq<Seq<char>>,
    a: Position,
    b: Position,
    ins: Seq<Seq<char>>,
)
    requires
        lines_ok(ls),
        ins.len() >= 1,
        pos_valid(ls, a),
        pos_valid(ls, b),
    ensures
        join_lines(splice_lines(ls, a, b, ins)) == content_up_to(ls, a) + join_lines(ins)
            + content_from(ls, b),
{
    let pre = ls[a.row as int].take(a.col as int);
    let suf = ls[b.row as int].skip(b.col as int);
    let mid0 = ins.update(0, pre + ins[0]);
    let mid = mid0.update(mid0.len() - 1, mid0.last() + suf);
    let front = ls.take(a.row as int);
    let back = ls.skip(b.row as int + 1);

    lemma_join_update_first(ins, pre);
    lemma_join_update_last(mid0, suf);
    assert(join_lines(mid) == pre + join_lines(ins) + suf);

    if front.len() >= 1 {
        lemma_join_lines_concat(front, mid);
        lemma_join_lines_push(front, pre);
        assert(content_up_to(ls, a) == join_lines(front) + seq!['\n'] + pre);
    } else {
        assert(front.take(a.row as int).push(pre) =~= seq![pre]);
        assert(content_up_to(ls, a) == pre);
    }
    if back.len() >= 1 {
        lemma_join_lines_concat(front + mid, back);
        lemma_join_lines_cons(suf, back);
        assert(content_from(ls, b) == suf + seq!['\n'] + join_lines(back));
    } else {
        assert(seq![suf] + back =~= seq![suf]);
        assert(content_from(ls, b) == suf);
    }
    if front.len() >= 1 && back.len() >= 1 {
        assert(join_lines(splice_lines(ls, a, b, ins)) =~= content_up_to(ls, a) + join_lines(ins)
            + content_from(ls, b));
    } else if front.len() >= 1 {
        assert(front + mid + back =~~= front + mid);
        assert(join_lines(splice_lines(ls, a, b, ins)) =~= content_up_to(ls, a) + join_lines(ins)
            + content_from(ls, b));
    } else if back.len() >= 1 {
        assert(front + mid + back =~~= mid + back);
        lemma_join_lines_concat(mid, back);
        assert(join_lines(splice_lines(ls, a, b, ins)) =~= content_up_to(ls, a) + join_lines(ins)
            + content_from(ls, b));
    } else {
        assert(front + mid + back =~~= mid);
        assert(join_lines(splice_lines(ls, a, b, ins)) =~= content_up_to(ls, a) + join_lines(ins)
            + content_from(ls, b));
    }
}

/// Shape of a spliced buffer, line by line: untouched lines above and
/// below, the inserted segments in the middle, the outermost two glued to
/// the kept parts of the edit's boundary lines. Well-formedness carries
/// over.
pub proof fn lemma_splice_wf(ls: Seq<Seq<char>>, a: Position, b: Position, ins: Seq<Seq<char>>)
    requires
        lines_ok(ls),
        lines_ok(ins),
        pos_valid(ls, a),
        pos_valid(ls, b),
        pos_le(a, b),
    ensures
        splice_lines(ls, a, b, ins).len() == a.row + ins.len() + (ls.len() - b.row - 1),
        lines_ok(splice_lines(ls, a, b, ins)),
        forall|i: int| 0 <= i < a.row ==> #[trigger] splice_lines(ls, a, b, ins)[i] == ls[i],
        forall|j: int|
            0 < j < ins.len() - 1 ==> #[trigger] splice_lines(ls, a, b, ins)[a.row + j] == ins[j],
        forall|i: int|
            b.row < i < ls.len() ==> #[trigger] splice_lines(ls, a, b, ins)[i + ins.len() - 1
                - (b.row - a.row)] == ls[i],
        ins.len() > 1 ==> splice_lines(ls, a, b, ins)[a.row as int] == ls[a.row as int].take(
            a.col as int,
        ) + ins[0],
        ins.len() > 1 ==> splice_lines(ls, a, b, ins)[a.row + ins.len() - 1] == ins.last()
            + ls[b.row as int].skip(b.col as int),
        ins.len() == 1 ==> splice_lines(ls, a, b, ins)[a.row as int] == ls[a.row as int].take(
            a.col as int,
        ) + ins[0] + ls[b.row as int].skip(b.col as int),
{
    let pre = ls[a.row as int].take(a.col as int);
    let suf = ls[b.row as int].skip(b.col as int);
    let mid0 = ins.update(0, pre + ins[0]);
    let mid = mid0.update(mid0.len() - 1, mid0.last() + suf);
    let sp = splice_lines(ls, a, b, ins);
    assert(line_ok(pre));
    assert(line_ok(suf));
    if ins.len() == 1 {
        assert(sp[a.row as int] == pre + ins[0] + suf) by {
            assert(mid[0] == (pre + ins[0]) + suf);
            assert((pre + ins[0]) + suf =~= pre + ins[0] + suf);
        }
    }
    assert forall|i: int| 0 <= i < sp.len() implies line_ok(#[trigger] sp[i]) by {
        if i < a.row {
            assert(sp[i] == ls[i]);
        } else if i < a.row + ins.len() {
            assert(sp[i] == mid[i - a.row]);
            assert(line_ok(ins[i - a.row]));
        } else {
            assert(sp[i] == ls[i - ins.len() + 1 + (b.row - a.row)]);
        }
    }
}

} // verus!
