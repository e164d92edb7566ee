//! Splitting a text into its lines.
//!
//! A line ends at a line feed or at the end of the text. The line feed is not
//! part of the line, and nothing else is taken away: a carriage return before
//! a line feed stays in its line. A text that ends in a line feed has no empty
//! last line after it.

use vstd::prelude::*;

verus! {

/// `k` is the first position of `s` that holds `mark`, or the length of `s`
/// where no position does.
pub open spec fn is_first_break<T>(s: Seq<T>, mark: T, k: int) -> bool {
    &&& 0 <= k <= s.len()
    &&& forall|j: int| 0 <= j < k ==> s[j] != mark
    &&& k < s.len() ==> s[k] == mark
}

/// Where the first line of `text` ends: the position of its first line feed,
/// or its length where it has none.
pub open spec fn first_break(text: Seq<char>) -> int {
    choose|k: int| is_first_break(text, '\n', k)
}

/// The text before the first line feed; all of it where there is none.
pub open spec fn first_line(text: Seq<char>) -> Seq<char> {
    text.subrange(0, first_break(text))
}

/// The text after the first line feed; empty where there is none.
pub open spec fn after_first_line(text: Seq<char>) -> Seq<char> {
    let k = first_break(text);
    if 0 <= k < text.len() {
        text.subrange(k + 1, text.len() as int)
    } else {
        Seq::empty()
    }
}

/// The lines of `text`, in the order in which they stand in it.
pub open spec fn lines_of(text: Seq<char>) -> Seq<Seq<char>>
    decreases text.len(),
{
    if text.len() == 0 {
        Seq::empty()
    } else {
        seq![first_line(text)] + lines_of(after_first_line(text))
    }
}

/// Every sequence has a first break.
pub proof fn lemma_first_break_exists<T>(s: Seq<T>, mark: T)
    ensures
        exists|k: int| is_first_break(s, mark, k),
    decreases s.len(),
{
    if s.len() == 0 {
        assert(is_first_break(s, mark, 0));
    } else {
        let front = s.drop_last();
        lemma_first_break_exists(front, mark);
        let k = choose|k: int| is_first_break(front, mark, k);
        if k < front.len() {
            assert(front[k] == s[k]);
            assert forall|j: int| 0 <= j < k implies s[j] != mark by {
                assert(front[j] == s[j]);
            }
            assert(is_first_break(s, mark, k));
        } else {
            assert forall|j: int| 0 <= j < k implies s[j] != mark by {
                assert(front[j] == s[j]);
            }
            if s.last() == mark {
                assert(is_first_break(s, mark, k));
            } else {
                assert(is_first_break(s, mark, k + 1));
            }
        }
    }
}

/// A text has one first break only.
pub proof fn lemma_first_break_is_unique(text: Seq<char>, k: int)
    requires
        is_first_break(text, '\n', k),
    ensures
        first_break(text) == k,
{
    let chosen = first_break(text);
    assert(is_first_break(text, '\n', chosen));
    if chosen < k {
        assert(text[chosen] == '\n');
    } else if k < chosen {
        assert(text[k] == '\n');
    }
}

/// The first break of a text is a first break.
pub proof fn lemma_first_break(text: Seq<char>)
    ensures
        is_first_break(text, '\n', first_break(text)),
{
    lemma_first_break_exists(text, '\n');
}

/// A text is its first line where it has no line feed, and else its first
/// line, a line feed and the rest.
pub proof fn lemma_first_line_splits(text: Seq<char>)
    ensures
        first_break(text) == text.len() ==> first_line(text) == text && after_first_line(
            text,
        ).len() == 0,
        first_break(text) < text.len() ==> text == first_line(text) + seq!['\n']
            + after_first_line(text),
        forall|j: int| 0 <= j < first_line(text).len() ==> first_line(text)[j] != '\n',
{
    lemma_first_break(text);
    let k = first_break(text);
    if k == text.len() {
        assert(first_line(text) =~= text);
    } else {
        assert(text =~= first_line(text) + seq!['\n'] + after_first_line(text));
    }
}

/// Where line `i` of `text` begins: behind the lines before it and the line
/// feed that ends each of them.
pub open spec fn line_start(text: Seq<char>, i: int) -> int
    decreases i,
{
    if i <= 0 {
        0
    } else {
        line_start(text, i - 1) + lines_of(text)[i - 1].len() + 1
    }
}

/// A line other than the first begins where it begins in the text after the
/// first line, moved by the first line and its line feed.
proof fn lemma_line_start_behind_first_line(text: Seq<char>, i: int)
    requires
        1 <= i <= lines_of(text).len(),
    ensures
        line_start(text, i) == first_line(text).len() + 1 + line_start(
            after_first_line(text),
            i - 1,
        ),
    decreases i,
{
    let rest = after_first_line(text);
    if i == 1 {
        assert(line_start(text, 0) == 0);
        assert(line_start(rest, 0) == 0);
        assert(lines_of(text)[0] == first_line(text));
    } else {
        lemma_line_start_behind_first_line(text, i - 1);
        assert(lines_of(text)[i - 1] == lines_of(rest)[i - 2]);
        assert(line_start(rest, i - 1) == line_start(rest, i - 2) + lines_of(rest)[i - 2].len()
            + 1);
    }
}

/// Each line is a slice of the text at its original place: line `i` stands in
/// the text from `line_start(text, i)` on, begins at the start of the text or
/// behind a line feed, and ends at the end of the text or before a line feed.
pub proof fn lemma_line_is_slice(text: Seq<char>, i: int)
    requires
        0 <= i < lines_of(text).len(),
    ensures
        ({
            let start = line_start(text, i);
            let end = start + lines_of(text)[i].len();
            &&& 0 <= start <= end <= text.len()
            &&& text.subrange(start, end) == lines_of(text)[i]
            &&& start == 0 || text[start - 1] == '\n'
            &&& end == text.len() || text[end] == '\n'
        }),
    decreases text.len(),
{
    lemma_first_break(text);
    let k = first_break(text);
    if i > 0 {
        let rest = after_first_line(text);
        assert(lines_of(text)[i] == lines_of(rest)[i - 1]);
        if k == text.len() {
            assert(lines_of(rest) =~= Seq::<Seq<char>>::empty());
        }
        lemma_line_is_slice(rest, i - 1);
        lemma_line_start_behind_first_line(text, i);
        let line = lines_of(rest)[i - 1];
        let inner = line_start(rest, i - 1);
        let start = k + 1 + inner;
        assert(text.subrange(start, start + line.len()) =~= rest.subrange(
            inner,
            inner + line.len(),
        ));
        if inner > 0 {
            assert(rest[inner - 1] == text[start - 1]);
        }
        if inner + line.len() < rest.len() {
            assert(rest[inner + line.len()] == text[start + line.len()]);
        }
    }
}

/// No line holds a line feed.
pub proof fn lemma_lines_hold_no_line_feed(text: Seq<char>, i: int)
    requires
        0 <= i < lines_of(text).len(),
    ensures
        forall|j: int| 0 <= j < lines_of(text)[i].len() ==> lines_of(text)[i][j] != '\n',
    decreases text.len(),
{
    lemma_first_line_splits(text);
    if i > 0 {
        let rest = after_first_line(text);
        assert(lines_of(text)[i] == lines_of(rest)[i - 1]);
        lemma_first_break(text);
        if first_break(text) == text.len() {
            assert(lines_of(rest) =~= Seq::<Seq<char>>::empty());
        }
        lemma_lines_hold_no_line_feed(rest, i - 1);
    }
}

/// The text made of `lines`, each followed by a line feed.
pub open spec fn terminated(lines: Seq<Seq<char>>) -> Seq<char>
    decreases lines.len(),
{
    if lines.len() == 0 {
        Seq::empty()
    } else {
        lines[0] + seq!['\n'] + terminated(lines.drop_first())
    }
}

/// `text` with a line feed behind its last line where that line has none.
pub open spec fn with_last_line_terminated(text: Seq<char>) -> Seq<char> {
    if text.len() == 0 || text.last() == '\n' {
        text
    } else {
        text.push('\n')
    }
}

/// Splitting loses nothing: the lines of a text, each followed by a line
/// feed, spell the text, but for the line feed that the last line of the text
/// may lack.
pub proof fn lemma_lines_spell_the_text(text: Seq<char>)
    ensures
        terminated(lines_of(text)) == with_last_line_terminated(text),
    decreases text.len(),
{
    if text.len() > 0 {
        lemma_first_break(text);
        lemma_first_line_splits(text);
        let rest = after_first_line(text);
        let lines = lines_of(text);
        assert(lines.drop_first() =~= lines_of(rest));
        lemma_lines_spell_the_text(rest);
        if first_break(text) == text.len() {
            assert(text.last() == text[text.len() - 1]);
            assert(terminated(lines) =~= text.push('\n'));
        } else {
            if rest.len() > 0 {
                assert(rest.last() == text.last());
            }
            assert(terminated(lines) =~= with_last_line_terminated(text));
        }
    }
}

/// There is one way only to split a text into lines: a sequence of texts
/// without line feeds that spell `text` as its lines do is the sequence of
/// its lines.
pub proof fn lemma_lines_are_unique(text: Seq<char>, lines: Seq<Seq<char>>)
    requires
        forall|i: int, j: int|
            0 <= i < lines.len() && 0 <= j < lines[i].len() ==> lines[i][j] != '\n',
        terminated(lines) == with_last_line_terminated(text),
    ensures
        lines == lines_of(text),
    decreases lines.len(),
{
    let whole = with_last_line_terminated(text);
    assert(whole.len() >= text.len());
    assert(forall|j: int| 0 <= j < text.len() ==> whole[j] == text[j]);
    if lines.len() == 0 {
        assert(terminated(lines).len() == 0);
    } else {
        let first = lines[0];
        let others = lines.drop_first();
        assert(whole == first + seq!['\n'] + terminated(others));
        assert(text.len() > 0);
        let k = first.len() as int;
        assert(whole[k] == '\n');
        assert forall|j: int| 0 <= j < k implies whole[j] == first[j] && whole[j] != '\n' by {
            assert(whole[j] == first[j]);
        }
        assert forall|i: int, j: int|
            0 <= i < others.len() && 0 <= j < others[i].len() implies others[i][j] != '\n' by {
            assert(others[i] == lines[i + 1]);
        }
        if k < text.len() {
            assert(text[k] == whole[k]);
            assert forall|j: int| 0 <= j < k implies text[j] != '\n' by {
                assert(text[j] == whole[j]);
            }
            lemma_first_break_is_unique(text, k);
            let rest = after_first_line(text);
            assert(first_line(text) =~= first);
            assert(terminated(others) =~= whole.subrange(k + 1, whole.len() as int));
            if rest.len() > 0 {
                assert(rest.last() == text.last());
            }
            assert(terminated(others) =~= with_last_line_terminated(rest));
            lemma_lines_are_unique(rest, others);
            assert(lines =~= seq![first] + others);
        } else {
            assert(k == text.len());
            assert(whole.len() == text.len() + 1);
            assert(whole =~= text.push('\n'));
            assert forall|j: int| 0 <= j < k implies text[j] != '\n' by {
                assert(text[j] == whole[j]);
            }
            lemma_first_break_is_unique(text, k);
            assert(first_line(text) =~= first);
            assert(terminated(others).len() == 0);
            assert(others.len() == 0);
            assert(lines_of(after_first_line(text)) =~= Seq::<Seq<char>>::empty());
            assert(lines =~= seq![first]);
        }
    }
}

/// A line feed behind the last line adds no line: a text that does not end
/// in a line feed has the lines it would have with one added at its end.
pub proof fn lemma_final_line_feed_adds_no_line(text: Seq<char>)
    requires
        text.len() > 0,
        text.last() != '\n',
    ensures
        lines_of(text.push('\n')) == lines_of(text),
{
    let lines = lines_of(text);
    assert forall|i: int, j: int| 0 <= i < lines.len() && 0 <= j < lines[i].len() implies lines[i][j]
        != '\n' by {
        lemma_lines_hold_no_line_feed(text, i);
    }
    lemma_lines_spell_the_text(text);
    assert(text.push('\n').last() == '\n');
    lemma_lines_are_unique(text.push('\n'), lines);
}

/// The number of line feeds in `text`.
pub open spec fn line_feeds(text: Seq<char>) -> nat {
    text.filter(|c: char| c == '\n').len()
}

/// A text has one line for each of its line feeds, and one more for what
/// stands behind the last of them, where anything does.
pub proof fn lemma_line_count(text: Seq<char>)
    ensures
        lines_of(text).len() == line_feeds(text) + (if text.len() > 0 && text.last() != '\n' {
            1nat
        } else {
            0nat
        }),
    decreases text.len(),
{
    if text.len() == 0 {
        lemma_no_line_feeds(text);
    } else {
        lemma_first_break(text);
        lemma_first_line_splits(text);
        let first = first_line(text);
        let rest = after_first_line(text);
        lemma_line_count(rest);
        lemma_no_line_feeds(first);
        assert(lines_of(text).len() == 1 + lines_of(rest).len());
        if first_break(text) == text.len() {
            assert(text.last() == text[text.len() - 1]);
        } else {
            lemma_line_feeds_around_first(first, rest);
            if rest.len() > 0 {
                assert(rest.last() == text.last());
            }
        }
    }
}

/// The line feeds of two texts joined by a line feed are theirs and the one
/// that joins them.
proof fn lemma_line_feeds_around_first(first: Seq<char>, rest: Seq<char>)
    ensures
        line_feeds(first + seq!['\n'] + rest) == line_feeds(first) + 1 + line_feeds(rest),
{
    let is_feed = |c: char| c == '\n';
    Seq::filter_distributes_over_add(first + seq!['\n'], rest, is_feed);
    Seq::filter_distributes_over_add(first, seq!['\n'], is_feed);
    assert(seq!['\n'].filter(is_feed) =~= seq!['\n']) by {
        reveal_with_fuel(Seq::filter, 2);
        assert(seq!['\n'].drop_last() =~= Seq::<char>::empty());
    }
}

/// A text of which no character is a line feed has no line feeds.
proof fn lemma_no_line_feeds(text: Seq<char>)
    requires
        forall|j: int| 0 <= j < text.len() ==> text[j] != '\n',
    ensures
        line_feeds(text) == 0,
    decreases text.len(),
{
    reveal(Seq::filter);
    if text.len() > 0 {
        let front = text.drop_last();
        assert forall|j: int| 0 <= j < front.len() implies front[j] != '\n' by {
            assert(front[j] == text[j]);
        }
        lemma_no_line_feeds(front);
    }
}

} // verus!
