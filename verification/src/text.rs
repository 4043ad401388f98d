//! The line model of a document.
//!
//! A document is a sequence of code points. Its lines are the segments that
//! end in a newline, each retaining that terminator, plus one final
//! unterminated segment when characters remain after the last newline.

use vstd::prelude::*;

verus! {

/// Length of the first line of `text`: everything up to and including the
/// first newline, or all of `text` when no newline occurs.
pub open spec fn first_line_len(text: Seq<char>) -> nat
    decreases text.len(),
{
    if text.len() == 0 {
        0
    } else if text[0] == '\n' {
        1
    } else {
        1 + first_line_len(text.skip(1))
    }
}

/// The lines of `text`, in order, each retaining its terminator.
pub open spec fn lines_of(text: Seq<char>) -> Seq<Seq<char>>
    decreases text.len(),
    via lines_of_decreases
{
    if text.len() == 0 {
        Seq::empty()
    } else {
        seq![text.take(first_line_len(text) as int)]
            + lines_of(text.skip(first_line_len(text) as int))
    }
}

#[via_fn]
proof fn lines_of_decreases(text: Seq<char>) {
    if text.len() != 0 {
        lemma_first_line_len_bounds(text);
    }
}

/// Number of lines of `text`.
pub open spec fn line_count(text: Seq<char>) -> nat {
    lines_of(text).len()
}

/// Offset of the first character of line `i` (0-based): the total length of
/// the lines before it.
pub open spec fn line_start(text: Seq<char>, i: int) -> int
    decreases i,
{
    if i <= 0 {
        0
    } else {
        line_start(text, i - 1) + lines_of(text)[i - 1].len()
    }
}

/// The first line runs to the first newline inclusive, or to the end of the
/// text when there is none.
pub proof fn lemma_first_line_len_bounds(text: Seq<char>)
    requires
        text.len() > 0,
    ensures
        1 <= first_line_len(text) <= text.len(),
        forall|j: int| 0 <= j < first_line_len(text) - 1 ==> text[j] != '\n',
        text[first_line_len(text) - 1] == '\n' || first_line_len(text) == text.len(),
    decreases text.len(),
{
    if text[0] != '\n' && text.len() > 1 {
        lemma_first_line_len_bounds(text.skip(1));
        assert forall|j: int| 0 <= j < first_line_len(text) - 1 implies text[j] != '\n' by {
            if j > 0 {
                assert(text.skip(1)[j - 1] == text[j]);
                assert(text.skip(1)[j - 1] != '\n');
            }
        }
        assert(text[first_line_len(text) - 1] == text.skip(1)[first_line_len(text.skip(1)) - 1]);
    } else if text[0] != '\n' {
        assert(text.skip(1).len() == 0);
        assert(first_line_len(text.skip(1)) == 0);
    }
}

/// A newline at `k` with none before it pins the first line's length.
pub proof fn lemma_first_line_len_at(text: Seq<char>, k: int)
    requires
        0 <= k < text.len(),
        text[k] == '\n',
        forall|j: int| 0 <= j < k ==> text[j] != '\n',
    ensures
        first_line_len(text) == k + 1,
    decreases text.len(),
{
    if k > 0 {
        assert forall|j: int| 0 <= j < k - 1 implies text.skip(1)[j] != '\n' by {
            assert(text.skip(1)[j] == text[j + 1]);
        }
        assert(text.skip(1)[k - 1] == text[k]);
        lemma_first_line_len_at(text.skip(1), k - 1);
    }
}

/// Without any newline the whole text is one line.
pub proof fn lemma_first_line_len_no_newline(text: Seq<char>)
    requires
        forall|j: int| 0 <= j < text.len() ==> text[j] != '\n',
    ensures
        first_line_len(text) == text.len(),
    decreases text.len(),
{
    if text.len() > 0 {
        assert forall|j: int| 0 <= j < text.skip(1).len() implies text.skip(1)[j] != '\n' by {
            assert(text.skip(1)[j] == text[j + 1]);
        }
        lemma_first_line_len_no_newline(text.skip(1));
    }
}

/// Shape of the line decomposition: every line is nonempty, every line but
/// the last ends in a newline, and no line holds a newline before its last
/// character. There are no lines exactly when the text is empty.
pub proof fn lemma_lines_shape(text: Seq<char>)
    ensures
        forall|i: int| 0 <= i < line_count(text) ==> (#[trigger] lines_of(text)[i]).len() >= 1,
        forall|i: int|
            0 <= i < line_count(text) - 1 ==> (#[trigger] lines_of(text)[i]).last() == '\n',
        forall|i: int, j: int|
            0 <= i < line_count(text) && 0 <= j < lines_of(text)[i].len() - 1
                ==> #[trigger] lines_of(text)[i][j] != '\n',
        line_count(text) == 0 <==> text.len() == 0,
    decreases text.len(),
{
    if text.len() > 0 {
        lemma_first_line_len_bounds(text);
        let f = first_line_len(text) as int;
        let rest = text.skip(f);
        lemma_lines_shape(rest);
        assert forall|i: int| 0 <= i < line_count(text) implies (#[trigger] lines_of(text)[i]).len() >= 1 by {
            if i > 0 {
                assert(lines_of(text)[i] == lines_of(rest)[i - 1]);
            }
        }
        assert forall|i: int| 0 <= i < line_count(text) - 1 implies (#[trigger] lines_of(text)[i]).last() == '\n' by {
            if i == 0 {
                assert(f < text.len());
                assert(lines_of(text)[0] == text.take(f));
                assert(text.take(f).last() == text[f - 1]);
            } else {
                assert(lines_of(text)[i] == lines_of(rest)[i - 1]);
            }
        }
        assert forall|i: int, j: int|
            0 <= i < line_count(text) && 0 <= j < lines_of(text)[i].len()
                - 1 implies #[trigger] lines_of(text)[i][j] != '\n' by {
            if i == 0 {
                assert(lines_of(text)[0] == text.take(f));
                assert(text.take(f)[j] == text[j]);
            } else {
                assert(lines_of(text)[i] == lines_of(rest)[i - 1]);
            }
        }
    }
}

/// A text has at most as many lines as characters.
pub proof fn lemma_line_count_le_len(text: Seq<char>)
    ensures
        line_count(text) <= text.len(),
    decreases text.len(),
{
    if text.len() > 0 {
        lemma_first_line_len_bounds(text);
        lemma_line_count_le_len(text.skip(first_line_len(text) as int));
    }
}

/// Appending after a terminated (or empty) prefix decomposes line by line.
pub proof fn lemma_lines_append(a: Seq<char>, b: Seq<char>)
    requires
        a.len() == 0 || b.len() == 0 || a.last() == '\n',
    ensures
        lines_of(a + b) == lines_of(a) + lines_of(b),
    decreases a.len(),
{
    if a.len() == 0 {
        assert(a + b =~= b);
        assert(lines_of(a) + lines_of(b) =~= lines_of(b));
    } else if b.len() == 0 {
        assert(a + b =~= a);
        assert(lines_of(a) + lines_of(b) =~= lines_of(a));
    } else {
        lemma_first_line_len_bounds(a);
        let f = first_line_len(a) as int;
        assert(a[f - 1] == '\n' || f == a.len());
        assert(a[f - 1] == '\n');
        assert forall|j: int| 0 <= j < f - 1 implies (a + b)[j] != '\n' by {
            assert((a + b)[j] == a[j]);
        }
        assert((a + b)[f - 1] == a[f - 1]);
        lemma_first_line_len_at(a + b, f - 1);
        assert((a + b).take(f) =~= a.take(f));
        assert((a + b).skip(f) =~= a.skip(f) + b);
        if a.skip(f).len() > 0 {
            assert(a.skip(f).last() == a.last());
        }
        lemma_lines_append(a.skip(f), b);
        assert(lines_of(a + b) =~= lines_of(a) + lines_of(b));
    }
}

/// Skipping to the start of line `n` leaves exactly the lines from `n` on.
pub proof fn lemma_lines_skip(text: Seq<char>, n: int)
    requires
        0 <= n <= line_count(text),
    ensures
        0 <= line_start(text, n) <= text.len(),
        lines_of(text.skip(line_start(text, n))) == lines_of(text).skip(n),
    decreases n,
{
    if n == 0 {
        assert(text.skip(0) =~= text);
        assert(lines_of(text).skip(0) =~= lines_of(text));
    } else {
        lemma_lines_skip(text, n - 1);
        let s = line_start(text, n - 1);
        let tail = text.skip(s);
        assert(lines_of(tail) == lines_of(text).skip(n - 1));
        assert(lines_of(tail).len() == line_count(text) - (n - 1) >= 1);
        assert(tail.len() > 0);
        lemma_first_line_len_bounds(tail);
        let f = first_line_len(tail) as int;
        assert(lines_of(tail)[0] == tail.take(f));
        assert(lines_of(tail)[0] == lines_of(text)[n - 1]);
        assert(lines_of(text)[n - 1].len() == f);
        assert(line_start(text, n) == s + f);
        assert(text.skip(s + f) =~= tail.skip(f));
        assert(lines_of(tail.skip(f)) =~= lines_of(tail).skip(1));
        assert(lines_of(text).skip(n) =~= lines_of(text).skip(n - 1).skip(1));
    }
}

/// The lines exactly cover the text: line `count` would begin at its end.
pub proof fn lemma_line_start_total(text: Seq<char>)
    ensures
        line_start(text, line_count(text) as int) == text.len(),
{
    let n = line_count(text) as int;
    lemma_lines_skip(text, n);
    let s = line_start(text, n);
    assert(lines_of(text).skip(n) =~= Seq::empty());
    if text.skip(s).len() > 0 {
        assert(lines_of(text.skip(s)).len() >= 1);
    }
}

/// Each line is the span of the text between its start and its end.
pub proof fn lemma_line_subrange(text: Seq<char>, n: int)
    requires
        0 <= n < line_count(text),
    ensures
        0 <= line_start(text, n),
        line_start(text, n) + lines_of(text)[n].len() <= text.len(),
        lines_of(text)[n] == text.subrange(
            line_start(text, n),
            line_start(text, n) + lines_of(text)[n].len(),
        ),
{
    lemma_lines_skip(text, n);
    let s = line_start(text, n);
    let tail = text.skip(s);
    assert(lines_of(tail) == lines_of(text).skip(n));
    assert(lines_of(tail).len() >= 1);
    assert(tail.len() > 0);
    lemma_first_line_len_bounds(tail);
    let f = first_line_len(tail) as int;
    assert(lines_of(tail)[0] == tail.take(f));
    assert(lines_of(tail)[0] == lines_of(text)[n]);
    assert(lines_of(text)[n].len() == f);
    assert(tail.take(f) =~= text.subrange(s, s + f));
}

/// Taking the text up to the start of line `n` keeps exactly the first `n`
/// lines.
pub proof fn lemma_lines_take(text: Seq<char>, n: int)
    requires
        0 <= n <= line_count(text),
    ensures
        lines_of(text.take(line_start(text, n))) == lines_of(text).take(n),
        n >= 1 && n < line_count(text) ==> line_start(text, n) >= 1 && text[line_start(text, n)
            - 1] == '\n',
{
    lemma_lines_skip(text, n);
    let s = line_start(text, n);
    let pre = text.take(s);
    if n >= 1 && n < line_count(text) {
        lemma_lines_shape(text);
        lemma_line_subrange(text, n - 1);
        let m = lines_of(text)[n - 1].len() as int;
        assert(lines_of(text)[n - 1].last() == '\n');
        assert(s == line_start(text, n - 1) + m);
        assert(text.subrange(line_start(text, n - 1), s)[m - 1] == text[s - 1]);
        assert(text[s - 1] == '\n');
    }
    if s >= 1 && pre.len() > 0 && n < line_count(text) {
        assert(pre.last() == text[s - 1]);
    }
    if n == line_count(text) {
        lemma_line_start_total(text);
        assert(pre =~= text);
        assert(lines_of(text).take(n) =~= lines_of(text));
    } else if n == 0 {
        assert(pre =~= Seq::<char>::empty());
        assert(lines_of(text).take(0) =~= Seq::<Seq<char>>::empty());
    } else {
        assert(text =~= pre + text.skip(s));
        lemma_lines_append(pre, text.skip(s));
        assert(lines_of(text) == lines_of(pre) + lines_of(text).skip(n));
        assert(lines_of(pre).len() == n);
        assert forall|i: int| 0 <= i < n implies lines_of(pre)[i] == lines_of(text)[i] by {
            assert((lines_of(pre) + lines_of(text).skip(n))[i] == lines_of(pre)[i]);
        }
        assert(lines_of(pre) =~= lines_of(text).take(n));
    }
}

/// Two texts whose first `m` lines agree place line `m` at the same
/// offset.
pub proof fn lemma_line_start_congruent(d1: Seq<char>, d2: Seq<char>, m: int)
    requires
        forall|i: int| 0 <= i < m ==> lines_of(d1)[i] == lines_of(d2)[i],
    ensures
        line_start(d1, m) == line_start(d2, m),
    decreases m,
{
    if m > 0 {
        lemma_line_start_congruent(d1, d2, m - 1);
    }
}

/// Length of a line's content, excluding its terminator if it has one.
pub open spec fn content_len(line: Seq<char>) -> int {
    if line.len() > 0 && line.last() == '\n' {
        line.len() - 1
    } else {
        line.len() as int
    }
}

/// A nonempty segment with no newline before its last character is a
/// single line.
pub proof fn lemma_lines_single(m: Seq<char>)
    requires
        m.len() > 0,
        forall|i: int| 0 <= i < m.len() - 1 ==> m[i] != '\n',
    ensures
        lines_of(m) == seq![m],
{
    if m.last() == '\n' {
        lemma_first_line_len_at(m, m.len() - 1);
    } else {
        lemma_first_line_len_no_newline(m);
    }
    assert(m.take(m.len() as int) =~= m);
    assert(m.skip(m.len() as int) =~= Seq::<char>::empty());
    assert(lines_of(m.skip(m.len() as int)) == Seq::<Seq<char>>::empty());
    assert(lines_of(m) =~= seq![m]);
}

/// The text around line `n`: the terminated prefix of earlier lines, the
/// line itself, and the suffix holding the later lines.
pub proof fn lemma_line_decompose(text: Seq<char>, n: int)
    requires
        0 <= n < line_count(text),
    ensures
        ({
            let s = line_start(text, n);
            let ln = lines_of(text)[n];
            &&& 0 <= s
            &&& s + ln.len() <= text.len()
            &&& s + ln.len() == line_start(text, n + 1)
            &&& ln == text.subrange(s, s + ln.len())
            &&& lines_of(text.take(s)) == lines_of(text).take(n)
            &&& (text.take(s).len() == 0 || text.take(s).last() == '\n')
            &&& lines_of(text.skip(s + ln.len())) == lines_of(text).skip(n + 1)
            &&& (n == line_count(text) - 1 ==> text.skip(s + ln.len()).len() == 0)
            &&& ln.len() >= 1
            &&& (forall|i: int| 0 <= i < ln.len() - 1 ==> ln[i] != '\n')
            &&& (n < line_count(text) - 1 ==> ln.last() == '\n')
        }),
{
    let s = line_start(text, n);
    let ln = lines_of(text)[n];
    lemma_lines_shape(text);
    lemma_line_subrange(text, n);
    lemma_lines_take(text, n);
    lemma_lines_skip(text, n + 1);
    if n >= 1 {
        assert(text.take(s).last() == text[s - 1]);
    }
    if n == line_count(text) - 1 {
        lemma_line_start_total(text);
    }
}

/// Inserting a plain character inside line `n` rewrites that line alone.
pub proof fn lemma_edit_insert_char(text: Seq<char>, n: int, j: int, c: char)
    requires
        c != '\n',
        0 <= n < line_count(text),
        0 <= j <= content_len(lines_of(text)[n]),
    ensures
        ({
            let s = line_start(text, n);
            let ln = lines_of(text)[n];
            let ln2 = ln.take(j) + seq![c] + ln.skip(j);
            let doc2 = text.take(s + j) + seq![c] + text.skip(s + j);
            lines_of(doc2) == lines_of(text).update(n, ln2)
        }),
{
    let s = line_start(text, n);
    let ln = lines_of(text)[n];
    let ln2 = ln.take(j) + seq![c] + ln.skip(j);
    let doc2 = text.take(s + j) + seq![c] + text.skip(s + j);
    lemma_line_decompose(text, n);
    let p = text.take(s);
    let r = text.skip(s + ln.len());
    assert(doc2 =~= p + (ln2 + r));
    lemma_lines_append(p, ln2 + r);
    assert forall|i: int| 0 <= i < ln2.len() - 1 implies ln2[i] != '\n' by {
        if i < j {
            assert(ln2[i] == ln[i]);
        } else if i > j {
            assert(ln2[i] == ln[i - 1]);
        }
    }
    if ln.len() > 0 && ln.last() == '\n' {
        assert(ln2.last() == ln.last());
        lemma_lines_append(ln2, r);
        lemma_lines_single(ln2);
    } else {
        assert(n == line_count(text) - 1);
        assert(r.len() == 0);
        lemma_lines_append(ln2, r);
        lemma_lines_single(ln2);
    }
    assert(lines_of(doc2) == lines_of(text).take(n) + seq![ln2] + lines_of(text).skip(n + 1));
    assert(lines_of(doc2) =~= lines_of(text).update(n, ln2));
}

/// Deleting a plain character inside line `n` rewrites that line alone,
/// or removes it when its only character goes.
pub proof fn lemma_edit_delete_char(text: Seq<char>, n: int, j: int)
    requires
        0 <= n < line_count(text),
        0 <= j < content_len(lines_of(text)[n]),
    ensures
        ({
            let s = line_start(text, n);
            let ln = lines_of(text)[n];
            let ln2 = ln.take(j) + ln.skip(j + 1);
            let doc2 = text.take(s + j) + text.skip(s + j + 1);
            &&& (ln2.len() > 0 ==> lines_of(doc2) == lines_of(text).update(n, ln2))
            &&& (ln2.len() == 0 ==> lines_of(doc2) == lines_of(text).take(n))
        }),
{
    let s = line_start(text, n);
    let ln = lines_of(text)[n];
    let ln2 = ln.take(j) + ln.skip(j + 1);
    let doc2 = text.take(s + j) + text.skip(s + j + 1);
    lemma_line_decompose(text, n);
    let p = text.take(s);
    let r = text.skip(s + ln.len());
    assert(ln2.len() == ln.len() - 1);
    if ln2.len() == 0 {
        assert(ln.last() != '\n');
        assert(n == line_count(text) - 1);
        assert(r.len() == 0);
        assert(doc2 =~= p);
    } else {
        assert(doc2 =~= p + (ln2 + r));
        lemma_lines_append(p, ln2 + r);
        assert forall|i: int| 0 <= i < ln2.len() - 1 implies ln2[i] != '\n' by {
            if i < j {
                assert(ln2[i] == ln[i]);
            } else {
                assert(ln2[i] == ln[i + 1]);
            }
        }
        if ln.last() == '\n' {
            assert(ln2.last() == ln.last());
            lemma_lines_append(ln2, r);
            lemma_lines_single(ln2);
        } else {
            assert(n == line_count(text) - 1);
            assert(r.len() == 0);
            lemma_lines_append(ln2, r);
            lemma_lines_single(ln2);
        }
        assert(lines_of(doc2) == lines_of(text).take(n) + seq![ln2] + lines_of(text).skip(n + 1));
        assert(lines_of(doc2) =~= lines_of(text).update(n, ln2));
    }
}

/// Inserting a newline inside line `n` splits it in two; at the very end
/// of an unterminated final line it merely terminates that line.
pub proof fn lemma_edit_insert_newline(text: Seq<char>, n: int, j: int)
    requires
        0 <= n < line_count(text),
        0 <= j <= content_len(lines_of(text)[n]),
    ensures
        ({
            let s = line_start(text, n);
            let ln = lines_of(text)[n];
            let doc2 = text.take(s + j) + seq!['\n'] + text.skip(s + j);
            &&& (j < ln.len() ==> lines_of(doc2) == lines_of(text).take(n) + seq![
                ln.take(j).push('\n'),
                ln.skip(j),
            ] + lines_of(text).skip(n + 1))
            &&& (j == ln.len() ==> lines_of(doc2) == lines_of(text).update(n, ln.push('\n')))
        }),
{
    let s = line_start(text, n);
    let ln = lines_of(text)[n];
    let doc2 = text.take(s + j) + seq!['\n'] + text.skip(s + j);
    lemma_line_decompose(text, n);
    let p = text.take(s);
    let r = text.skip(s + ln.len());
    let head = ln.take(j).push('\n');
    assert forall|i: int| 0 <= i < head.len() - 1 implies head[i] != '\n' by {
        assert(head[i] == ln[i]);
    }
    assert(head.last() == '\n');
    if j < ln.len() {
        let tail = ln.skip(j);
        assert(doc2 =~= p + (head + (tail + r)));
        lemma_lines_append(p, head + (tail + r));
        lemma_lines_append(head, tail + r);
        lemma_lines_single(head);
        assert(tail.len() >= 1);
        assert forall|i: int| 0 <= i < tail.len() - 1 implies tail[i] != '\n' by {
            assert(tail[i] == ln[i + j]);
        }
        if ln.last() == '\n' {
            assert(tail.last() == ln.last());
            lemma_lines_append(tail, r);
            lemma_lines_single(tail);
        } else {
            assert(n == line_count(text) - 1);
            assert(r.len() == 0);
            lemma_lines_append(tail, r);
            lemma_lines_single(tail);
        }
        assert(lines_of(doc2) == lines_of(text).take(n) + seq![head] + (seq![tail] + lines_of(
            text,
        ).skip(n + 1)));
        assert(lines_of(doc2) =~= lines_of(text).take(n) + seq![head, tail] + lines_of(text).skip(
            n + 1,
        ));
    } else {
        // j == ln.len(): only possible when the line has no terminator
        assert(content_len(ln) == ln.len());
        assert(ln.last() != '\n');
        assert(n == line_count(text) - 1);
        assert(r.len() == 0);
        let ln2 = ln.push('\n');
        assert(doc2 =~= p + (ln2 + r));
        lemma_lines_append(p, ln2 + r);
        assert forall|i: int| 0 <= i < ln2.len() - 1 implies ln2[i] != '\n' by {
            assert(ln2[i] == ln[i]);
        }
        lemma_lines_append(ln2, r);
        lemma_lines_single(ln2);
        assert(lines_of(doc2) == lines_of(text).take(n) + seq![ln2] + lines_of(text).skip(n + 1));
        assert(lines_of(doc2) =~= lines_of(text).update(n, ln2));
    }
}

/// Deleting the terminator of line `n` merges it with the line after it.
pub proof fn lemma_edit_merge_lines(text: Seq<char>, n: int)
    requires
        0 <= n < line_count(text) - 1,
    ensures
        ({
            let s = line_start(text, n);
            let ln = lines_of(text)[n];
            let merged = ln.drop_last() + lines_of(text)[n + 1];
            let doc2 = text.take(s + ln.len() - 1) + text.skip(s + ln.len());
            lines_of(doc2) == lines_of(text).take(n).push(merged) + lines_of(text).skip(n + 2)
        }),
{
    let s = line_start(text, n);
    let ln = lines_of(text)[n];
    let nx = lines_of(text)[n + 1];
    let merged = ln.drop_last() + nx;
    let doc2 = text.take(s + ln.len() - 1) + text.skip(s + ln.len());
    lemma_line_decompose(text, n);
    lemma_line_decompose(text, n + 1);
    let p = text.take(s);
    let r2 = text.skip(line_start(text, n + 1) + nx.len());
    assert(text.skip(s + ln.len()) =~= nx + r2);
    assert(doc2 =~= p + (merged + r2));
    lemma_lines_append(p, merged + r2);
    assert(merged.len() >= 1);
    assert forall|i: int| 0 <= i < merged.len() - 1 implies merged[i] != '\n' by {
        if i < ln.len() - 1 {
            assert(merged[i] == ln[i]);
        } else {
            assert(merged[i] == nx[i - (ln.len() - 1)]);
        }
    }
    if nx.last() == '\n' {
        assert(merged.last() == nx.last());
        lemma_lines_append(merged, r2);
        lemma_lines_single(merged);
    } else {
        assert(n + 1 == line_count(text) - 1);
        assert(r2.len() == 0);
        lemma_lines_append(merged, r2);
        lemma_lines_single(merged);
    }
    assert(lines_of(doc2) == lines_of(text).take(n) + seq![merged] + lines_of(text).skip(n + 2));
    assert(lines_of(doc2) =~= lines_of(text).take(n).push(merged) + lines_of(text).skip(n + 2));
}

} // verus!
