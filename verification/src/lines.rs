//! Traits to work with the lines of a `String`.
//!
//! A text is modelled as the ordered sequence of its lines, the pieces that
//! stand between single `'\n'` delimiters: a text with N delimiters has N + 1
//! lines, except that the empty text has no lines at all.  Every mutation
//! derives that line sequence, edits it, and joins it back with `'\n'`.

use vstd::prelude::*;
use vstd::slice::slice_index_get;
use vstd::string::*;

verus! {

/// A simple vector of strings, one entry per line.
pub type StringLines = Vec<String>;

/// The single failure of the line operations: a 0-based line index outside
/// the valid range that the current line count allows.
#[derive(Clone, Copy, Debug, PartialEq, Eq, Structural)]
pub enum LineError {
    IndexOutOfRange,
}

/// Holds when no character of `line` is the `'\n'` delimiter.
pub open spec fn newline_free(line: Seq<char>) -> bool {
    forall|i: int| 0 <= i < line.len() ==> line[i] != '\n'
}

/// Holds when no line of `lines` contains the `'\n'` delimiter.
pub open spec fn all_newline_free(lines: Seq<Seq<char>>) -> bool {
    forall|i: int| 0 <= i < lines.len() ==> newline_free(#[trigger] lines[i])
}

/// The pieces of `text` between `'\n'` delimiters: a text with N delimiters
/// yields N + 1 pieces, so even the empty text yields one (empty) piece.
pub open spec fn raw_lines(text: Seq<char>) -> Seq<Seq<char>>
    decreases text.len(),
{
    if text.len() == 0 {
        seq![Seq::<char>::empty()]
    } else if text.last() == '\n' {
        raw_lines(text.drop_last()).push(Seq::<char>::empty())
    } else {
        let prefix = raw_lines(text.drop_last());
        prefix.update(prefix.len() - 1, prefix.last().push(text.last()))
    }
}

/// The line sequence of `text`: the empty text has zero lines, and any other
/// text has one line more than it has `'\n'` delimiters.
pub open spec fn lines_of(text: Seq<char>) -> Seq<Seq<char>> {
    if text.len() == 0 {
        Seq::<Seq<char>>::empty()
    } else {
        raw_lines(text)
    }
}

/// The number of lines of `text`.
pub open spec fn line_count(text: Seq<char>) -> nat {
    lines_of(text).len()
}

/// The text obtained by joining `lines` with the `'\n'` delimiter, with no
/// leading or trailing delimiter.
pub open spec fn merged(lines: Seq<Seq<char>>) -> Seq<char>
    decreases lines.len(),
{
    if lines.len() == 0 {
        Seq::<char>::empty()
    } else if lines.len() == 1 {
        lines[0]
    } else {
        merged(lines.drop_last()) + seq!['\n'] + lines.last()
    }
}

/// Splitting always yields at least one piece.
pub proof fn lemma_raw_lines_nonempty(text: Seq<char>)
    ensures
        raw_lines(text).len() >= 1,
    decreases text.len(),
{
    if text.len() > 0 {
        lemma_raw_lines_nonempty(text.drop_last());
    }
}

/// No piece of a split text contains the delimiter.
pub proof fn lemma_raw_lines_newline_free(text: Seq<char>)
    ensures
        all_newline_free(raw_lines(text)),
    decreases text.len(),
{
    if text.len() == 0 {
        assert(newline_free(Seq::<char>::empty()));
    } else {
        lemma_raw_lines_newline_free(text.drop_last());
        lemma_raw_lines_nonempty(text.drop_last());
        if text.last() == '\n' {
            assert(newline_free(Seq::<char>::empty()));
        } else {
            let prefix = raw_lines(text.drop_last());
            let updated = prefix.last().push(text.last());
            assert(newline_free(updated));
        }
    }
}

/// Joining the pieces of any text with the delimiter restores the text.
pub proof fn lemma_merged_raw_lines(text: Seq<char>)
    ensures
        merged(raw_lines(text)) == text,
    decreases text.len(),
{
    if text.len() == 0 {
        assert(merged(raw_lines(text)) =~= text);
    } else {
        let butlast = text.drop_last();
        lemma_merged_raw_lines(butlast);
        lemma_raw_lines_nonempty(butlast);
        let prev = raw_lines(butlast);
        if text.last() == '\n' {
            let whole = prev.push(Seq::<char>::empty());
            assert(whole.drop_last() =~= prev);
            assert(merged(whole) =~= text);
        } else {
            if prev.len() == 1 {
                let whole = prev.update(0, prev.last().push(text.last()));
                assert(merged(whole) == whole[0]);
                assert(merged(whole) =~= text);
            } else {
                let k = prev.len() - 1;
                let whole = prev.update(k, prev.last().push(text.last()));
                assert(whole.drop_last() =~= prev.drop_last());
                assert(whole.last() == prev.last().push(text.last()));
                assert(merged(whole) == merged(prev.drop_last()) + seq!['\n'] + whole.last());
                assert(merged(prev) == merged(prev.drop_last()) + seq!['\n'] + prev.last());
                assert(merged(whole) =~= merged(prev).push(text.last()));
                assert(merged(prev).push(text.last()) =~= text);
            }
        }
    }
}

/// Splitting a text into its lines and merging them back with the `'\n'`
/// delimiter restores the text exactly, for every text.
pub proof fn lemma_merge_of_lines(text: Seq<char>)
    ensures
        merged(lines_of(text)) == text,
{
    if text.len() == 0 {
        assert(merged(lines_of(text)) =~= text);
    } else {
        lemma_merged_raw_lines(text);
    }
}

/// Appending delimiter-free characters to a text only extends its last piece.
pub proof fn lemma_raw_lines_append(a: Seq<char>, b: Seq<char>)
    requires
        newline_free(b),
    ensures
        raw_lines(a + b) == raw_lines(a).update(
            raw_lines(a).len() - 1,
            raw_lines(a).last() + b,
        ),
    decreases b.len(),
{
    let x = raw_lines(a);
    lemma_raw_lines_nonempty(a);
    if b.len() == 0 {
        assert(a + b =~= a);
        assert(x.last() + b =~= x.last());
        assert(x.update(x.len() - 1, x.last() + b) =~= x);
    } else {
        let b0 = b.drop_last();
        let c = b.last();
        lemma_raw_lines_append(a, b0);
        let p = raw_lines(a + b0);
        assert(a + b =~= (a + b0).push(c));
        assert((a + b).drop_last() =~= a + b0);
        assert(c != '\n');
        assert(raw_lines(a + b) == p.update(p.len() - 1, p.last().push(c)));
        assert(p.len() == x.len());
        assert(p.last() == x.last() + b0);
        assert((x.last() + b0).push(c) =~= x.last() + b);
        assert(p.update(p.len() - 1, p.last().push(c)) =~= x.update(x.len() - 1, x.last() + b));
    }
}

/// Splitting the merge of delimiter-free pieces restores those very pieces,
/// as long as there is at least one of them.
pub proof fn lemma_raw_lines_of_merged(lines: Seq<Seq<char>>)
    requires
        lines.len() >= 1,
        all_newline_free(lines),
    ensures
        raw_lines(merged(lines)) == lines,
    decreases lines.len(),
{
    if lines.len() == 1 {
        let b = lines[0];
        assert(newline_free(b));
        lemma_raw_lines_append(Seq::<char>::empty(), b);
        assert(Seq::<char>::empty() + b =~= b);
        assert(raw_lines(Seq::<char>::empty()) == seq![Seq::<char>::empty()]);
        assert(Seq::<char>::empty() + b =~= merged(lines));
        assert(seq![Seq::<char>::empty()].update(0, Seq::<char>::empty() + b) =~= lines);
    } else {
        let front = lines.drop_last();
        let last = lines.last();
        assert(all_newline_free(front));
        lemma_raw_lines_of_merged(front);
        let m = merged(front);
        let with_nl = m + seq!['\n'];
        assert(with_nl.last() == '\n');
        assert(with_nl.drop_last() =~= m);
        assert(raw_lines(with_nl) == raw_lines(m).push(Seq::<char>::empty()));
        lemma_raw_lines_append(with_nl, last);
        assert(newline_free(last));
        let x = raw_lines(with_nl);
        assert(x == front.push(Seq::<char>::empty()));
        assert(with_nl + last =~= merged(lines));
        assert(x.update(x.len() - 1, x.last() + last) =~= front.push(last));
        assert(front.push(last) =~= lines);
    }
}

/// The line sequence of the merge of delimiter-free pieces is those very
/// pieces, except that merging the single empty piece collapses to the empty
/// text, which has no lines.
pub proof fn lemma_lines_of_merged(lines: Seq<Seq<char>>)
    requires
        all_newline_free(lines),
        lines != seq![Seq::<char>::empty()],
    ensures
        lines_of(merged(lines)) == lines,
{
    if lines.len() == 0 {
        assert(lines_of(merged(lines)) =~= lines);
    } else {
        lemma_raw_lines_of_merged(lines);
        if merged(lines).len() == 0 {
            if lines.len() == 1 {
                assert(lines[0] =~= Seq::<char>::empty());
                assert(lines =~= seq![Seq::<char>::empty()]);
                assert(false);
            } else {
                assert(merged(lines).len() >= 1);
            }
        }
    }
}

/// A text has zero lines exactly when it is the empty text.
pub proof fn lemma_no_lines_iff_empty(text: Seq<char>)
    ensures
        line_count(text) == 0 <==> text.len() == 0,
{
    if text.len() > 0 {
        lemma_raw_lines_nonempty(text);
    }
}

/// Removing the line at `index` and inserting that same line back at `index`
/// restores the original text.  The one family of texts left out: when the
/// removal leaves exactly one line and that line is empty, the intermediate
/// text collapses to the empty text (which has no lines), so the insertion
/// cannot restore the delimiter (for instance, removing line 0 of the text
/// holding a single delimiter and nothing else).
pub proof fn lemma_remove_then_insert(text: Seq<char>, index: int)
    requires
        0 <= index < line_count(text),
        lines_of(text).remove(index) != seq![Seq::<char>::empty()],
    ensures
        index <= line_count(merged(lines_of(text).remove(index))),
        merged(
            lines_of(merged(lines_of(text).remove(index))).insert(index, lines_of(text)[index]),
        ) == text,
{
    let l = lines_of(text);
    let l1 = l.remove(index);
    lemma_no_lines_iff_empty(text);
    lemma_raw_lines_newline_free(text);
    assert forall|i: int| 0 <= i < l1.len() implies newline_free(#[trigger] l1[i]) by {
        if i < index {
            assert(l1[i] == l[i]);
        } else {
            assert(l1[i] == l[i + 1]);
        }
    }
    lemma_lines_of_merged(l1);
    assert(l1.insert(index, l[index]) =~= l);
    lemma_merge_of_lines(text);
}

/// Appending a delimiter-free line raises the line count by one, and the new
/// last line is the appended line.  The one input left out: appending the
/// empty line to the empty text yields the empty text again, which has no
/// lines at all.
pub proof fn lemma_append_then_last(text: Seq<char>, line: Seq<char>)
    requires
        newline_free(line),
        text.len() > 0 || line.len() > 0,
    ensures
        line_count(merged(lines_of(text).push(line))) == line_count(text) + 1,
        lines_of(merged(lines_of(text).push(line)))[line_count(text) as int] == line,
{
    let old_lines = lines_of(text);
    let l = old_lines.push(line);
    lemma_raw_lines_newline_free(text);
    assert forall|i: int| 0 <= i < l.len() implies newline_free(#[trigger] l[i]) by {
        if i < old_lines.len() {
            assert(l[i] == old_lines[i]);
        } else {
            assert(l[i] == line);
        }
    }
    lemma_no_lines_iff_empty(text);
    assert(l != seq![Seq::<char>::empty()]) by {
        if l == seq![Seq::<char>::empty()] {
            assert(l.len() == 1);
            assert(old_lines.len() == 0);
            assert(l[0] == line);
            assert(seq![Seq::<char>::empty()][0] == Seq::<char>::empty());
            assert(text.len() == 0 && line.len() == 0);
        }
    }
    lemma_lines_of_merged(l);
}

/// Prepending a delimiter-free line raises the line count by one, and the new
/// line 0 is the prepended line.  The one input left out: prepending the empty
/// line to the empty text yields the empty text again, which has no lines.
pub proof fn lemma_prepend_then_first(text: Seq<char>, line: Seq<char>)
    requires
        newline_free(line),
        text.len() > 0 || line.len() > 0,
    ensures
        line_count(merged(lines_of(text).insert(0, line))) == line_count(text) + 1,
        lines_of(merged(lines_of(text).insert(0, line)))[0] == line,
{
    let old_lines = lines_of(text);
    let l = old_lines.insert(0, line);
    lemma_raw_lines_newline_free(text);
    assert forall|i: int| 0 <= i < l.len() implies newline_free(#[trigger] l[i]) by {
        if i == 0 {
            assert(l[i] == line);
        } else {
            assert(l[i] == old_lines[i - 1]);
        }
    }
    lemma_no_lines_iff_empty(text);
    assert(l != seq![Seq::<char>::empty()]) by {
        if l == seq![Seq::<char>::empty()] {
            assert(l.len() == 1);
            assert(old_lines.len() == 0);
            assert(l[0] == line);
            assert(seq![Seq::<char>::empty()][0] == Seq::<char>::empty());
            assert(text.len() == 0 && line.len() == 0);
        }
    }
    lemma_lines_of_merged(l);
}

/// Removing the first of at least two lines lowers the line count by one, and
/// line 0 of the outcome is line 1 of the original.  The one family of texts
/// left out: a text of exactly two lines whose second line is empty collapses
/// to the empty text once the first line is removed (for instance, a text that
/// ends in a delimiter right after its first line).
pub proof fn lemma_remove_first_shifts(text: Seq<char>)
    requires
        line_count(text) >= 2,
        lines_of(text).remove(0) != seq![Seq::<char>::empty()],
    ensures
        line_count(merged(lines_of(text).remove(0))) == line_count(text) - 1,
        lines_of(merged(lines_of(text).remove(0)))[0] == lines_of(text)[1],
{
    let l = lines_of(text);
    let l1 = l.remove(0);
    lemma_raw_lines_newline_free(text);
    assert forall|i: int| 0 <= i < l1.len() implies newline_free(#[trigger] l1[i]) by {
        assert(l1[i] == l[i + 1]);
    }
    lemma_lines_of_merged(l1);
    assert(l1[0] == l[1]);
}

/// All operations on a value read as an ordered sequence of lines.
///
/// Every mutation consumes the value, derives its line sequence, edits that
/// sequence, and returns the merge of the outcome, so calls chain fluently.
/// An operation given an index outside the valid range returns
/// `LineError::IndexOutOfRange` instead.
pub trait Lines: Sized {
    /// The character sequence that this value holds.
    spec fn text(&self) -> Seq<char>;

    /// Returns the total amount of lines: zero exactly for the empty text.
    fn count(&self) -> (n: usize)
        ensures
            n == line_count(self.text()),
            n == 0 <==> self.text().len() == 0,
    ;

    /// Returns the line at 0-based position `index`, or `IndexOutOfRange`
    /// when `index` is not below the line count (so always on the empty text).
    fn get(&self, index: usize) -> (r: Result<String, LineError>)
        ensures
            match r {
                Ok(line) => index < line_count(self.text()) && line@ == lines_of(
                    self.text(),
                )[index as int],
                Err(e) => index >= line_count(self.text()) && e == LineError::IndexOutOfRange,
            },
            self.text().len() == 0 ==> r is Err,
    ;

    /// Replaces the line at position `index` with `line`, or returns
    /// `IndexOutOfRange` when `index` is not below the line count.
    fn set(self, index: usize, line: String) -> (r: Result<Self, LineError>)
        ensures
            match r {
                Ok(t) => index < line_count(self.text()) && t.text() == merged(
                    lines_of(self.text()).update(index as int, line@),
                ),
                Err(e) => index >= line_count(self.text()) && e == LineError::IndexOutOfRange,
            },
            self.text().len() == 0 ==> r is Err,
    ;

    /// Inserts `line` so that it becomes the line at position `index`,
    /// shifting the following lines down by one; `index` may also equal the
    /// line count, which appends.  Returns `IndexOutOfRange` when `index`
    /// exceeds the line count.
    fn insert(self, index: usize, line: String) -> (r: Result<Self, LineError>)
        ensures
            match r {
                Ok(t) => index <= line_count(self.text()) && t.text() == merged(
                    lines_of(self.text()).insert(index as int, line@),
                ),
                Err(e) => index > line_count(self.text()) && e == LineError::IndexOutOfRange,
            },
    ;

    /// Removes the line at position `index`, or returns `IndexOutOfRange`
    /// when `index` is not below the line count (so always on the empty text).
    fn remove(self, index: usize) -> (r: Result<Self, LineError>)
        ensures
            match r {
                Ok(t) => index < line_count(self.text()) && t.text() == merged(
                    lines_of(self.text()).remove(index as int),
                ),
                Err(e) => index >= line_count(self.text()) && e == LineError::IndexOutOfRange,
            },
            self.text().len() == 0 ==> r is Err,
    ;

    /// Appends `line` after the last line; this never fails.
    fn append(self, line: String) -> (t: Self)
        ensures
            t.text() == merged(lines_of(self.text()).push(line@)),
    ;

    /// Prepends `line` before the first line; this never fails.
    fn prepend(self, line: String) -> (t: Self)
        ensures
            t.text() == merged(lines_of(self.text()).insert(0, line@)),
    ;

    /// Returns the first line, or `IndexOutOfRange` on the empty text.
    fn first(&self) -> (r: Result<String, LineError>)
        ensures
            match r {
                Ok(line) => line_count(self.text()) > 0 && line@ == lines_of(self.text())[0],
                Err(e) => line_count(self.text()) == 0 && e == LineError::IndexOutOfRange,
            },
            self.text().len() == 0 ==> r is Err,
    ;

    /// Returns the last line, or `IndexOutOfRange` on the empty text.
    fn last(&self) -> (r: Result<String, LineError>)
        ensures
            match r {
                Ok(line) => line_count(self.text()) > 0 && line@ == lines_of(self.text()).last(),
                Err(e) => line_count(self.text()) == 0 && e == LineError::IndexOutOfRange,
            },
            self.text().len() == 0 ==> r is Err,
    ;

    /// Removes the first line, or returns `IndexOutOfRange` on the empty text.
    fn remove_first(self) -> (r: Result<Self, LineError>)
        ensures
            match r {
                Ok(t) => line_count(self.text()) > 0 && t.text() == merged(
                    lines_of(self.text()).remove(0),
                ),
                Err(e) => line_count(self.text()) == 0 && e == LineError::IndexOutOfRange,
            },
            self.text().len() == 0 ==> r is Err,
    ;

    /// Removes the last line, or returns `IndexOutOfRange` on the empty text.
    fn remove_last(self) -> (r: Result<Self, LineError>)
        ensures
            match r {
                Ok(t) => line_count(self.text()) > 0 && t.text() == merged(
                    lines_of(self.text()).drop_last(),
                ),
                Err(e) => line_count(self.text()) == 0 && e == LineError::IndexOutOfRange,
            },
            self.text().len() == 0 ==> r is Err,
    ;
}

/// Splitting an object (a `String`) into its separate lines.
pub trait SplitLines {
    /// The character sequence that this value holds.
    spec fn source(&self) -> Seq<char>;

    /// Splits to multiple lines: one entry per piece between `'\n'`
    /// delimiters, and no entry at all for the empty text.
    fn split(&self) -> (lines: StringLines)
        ensures
            lines.deep_view() == lines_of(self.source()),
    ;
}

/// Joining separate lines into a single object (a `String`).
pub trait MergeLines {
    /// The character sequences of the lines that this value holds.
    spec fn pieces(&self) -> Seq<Seq<char>>;

    /// Merges multiple lines, joining them with the `'\n'` delimiter.
    fn merge(&self) -> (text: String)
        ensures
            text@ == merged(self.pieces()),
    ;
}

/// Splits `text` into its lines: one entry per piece between `'\n'`
/// delimiters, and no entry at all for the empty text.
pub fn split_text(text: &str) -> (lines: StringLines)
    ensures
        lines.deep_view() == lines_of(text@),
{
    let n = text.unicode_len();
    let mut lines: Vec<String> = Vec::new();
    if n == 0 {
        assert(lines.deep_view() =~= lines_of(text@));
        return lines;
    }
    let mut start: usize = 0;
    let mut i: usize = 0;
    proof {
        assert(lines.deep_view().push(text@.subrange(0, 0)) =~~= raw_lines(text@.take(0)));
    }
    while i < n
        invariant
            n == text@.len(),
            start <= i <= n,
            lines.deep_view().push(text@.subrange(start as int, i as int)) == raw_lines(
                text@.take(i as int),
            ),
        decreases n - i,
    {
        let ghost prev_lines = lines.deep_view();
        let ghost prev_start = start as int;
        let c = text.get_char(i);
        if c == '\n' {
            let piece = text.substring_char(start, i).to_owned();
            lines.push(piece);
            start = i + 1;
            proof {
                assert(lines.deep_view() =~~= prev_lines.push(text@.subrange(
                    prev_start,
                    i as int,
                )));
                assert(text@.take(i + 1).drop_last() =~= text@.take(i as int));
                assert(text@.take(i + 1).last() == '\n');
                assert(raw_lines(text@.take(i + 1)) == raw_lines(text@.take(i as int)).push(
                    Seq::<char>::empty(),
                ));
                assert(text@.subrange(i + 1, i + 1) =~= Seq::<char>::empty());
                assert(lines.deep_view().push(text@.subrange(i + 1, i + 1)) =~~= raw_lines(
                    text@.take(i + 1),
                ));
            }
        } else {
            proof {
                let x = raw_lines(text@.take(i as int));
                assert(text@.take(i + 1).drop_last() =~= text@.take(i as int));
                assert(text@.take(i + 1).last() == c);
                assert(raw_lines(text@.take(i + 1)) == x.update(x.len() - 1, x.last().push(c)));
                assert(x.last() == text@.subrange(prev_start, i as int));
                assert(text@.subrange(prev_start, i as int).push(c) =~= text@.subrange(
                    prev_start,
                    i + 1,
                ));
                assert(x.update(x.len() - 1, x.last().push(c)) =~~= prev_lines.push(
                    text@.subrange(prev_start, i + 1),
                ));
            }
        }
        i += 1;
    }
    let piece = text.substring_char(start, n).to_owned();
    let ghost prev_lines = lines.deep_view();
    lines.push(piece);
    proof {
        assert(text@.take(n as int) =~= text@);
        assert(lines.deep_view() =~~= prev_lines.push(text@.subrange(start as int, n as int)));
        assert(lines.deep_view() =~~= lines_of(text@));
    }
    lines
}

/// Joins `lines` with the `'\n'` delimiter, with no leading or trailing
/// delimiter; no lines at all join to the empty text.
pub fn merge_lines(lines: &StringLines) -> (text: String)
    ensures
        text@ == merged(lines.deep_view()),
{
    let mut buffer = String::new();
    let n = lines.len();
    let mut i: usize = 0;
    proof {
        assert(buffer@ =~= merged(lines.deep_view().take(0)));
    }
    while i < n
        invariant
            n == lines@.len(),
            i <= n,
            buffer@ == merged(lines.deep_view().take(i as int)),
        decreases n - i,
    {
        let ghost dv = lines.deep_view();
        if i > 0 {
            buffer = buffer.concat("\n");
            proof {
                reveal_strlit("\n");
                assert("\n"@ =~= seq!['\n']);
            }
        }
        let line = slice_index_get(lines.as_slice(), i);
        buffer = buffer.concat(line.as_str());
        proof {
            assert(dv[i as int] == lines@[i as int]@);
            assert(dv.take(i + 1).drop_last() =~= dv.take(i as int));
            assert(dv.take(i + 1).last() == dv[i as int]);
            if i == 0 {
                assert(merged(dv.take(1)) == dv.take(1)[0]);
                assert(buffer@ =~= merged(dv.take(1)));
            } else {
                assert(merged(dv.take(i + 1)) == merged(dv.take(i as int)) + seq!['\n'] + dv[
                    i as int
                ]);
                assert(buffer@ =~= merged(dv.take(i + 1)));
            }
        }
        i += 1;
    }
    proof {
        assert(lines.deep_view().take(n as int) =~= lines.deep_view());
    }
    buffer
}

impl SplitLines for String {
    open spec fn source(&self) -> Seq<char> {
        self@
    }

    fn split(&self) -> (lines: StringLines) {
        split_text(self.as_str())
    }
}

impl MergeLines for StringLines {
    open spec fn pieces(&self) -> Seq<Seq<char>> {
        self.deep_view()
    }

    fn merge(&self) -> (text: String) {
        merge_lines(self)
    }
}

impl Lines for String {
    open spec fn text(&self) -> Seq<char> {
        self@
    }

    fn count(&self) -> (n: usize) {
        let sl = self.split();
        proof {
            lemma_no_lines_iff_empty(self@);
        }
        sl.len()
    }

    fn get(&self, index: usize) -> (r: Result<String, LineError>) {
        let sl = self.split();
        if index < sl.len() {
            let line = slice_index_get(sl.as_slice(), index).clone();
            proof {
                assert(line@ == sl.deep_view()[index as int]);
            }
            Ok(line)
        } else {
            Err(LineError::IndexOutOfRange)
        }
    }

    fn set(self, index: usize, line: String) -> (r: Result<Self, LineError>) {
        let mut sl = self.split();
        if index >= sl.len() {
            return Err(LineError::IndexOutOfRange);
        }
        let ghost old_lines = sl.deep_view();
        let ghost old_strings = sl@;
        sl.remove(index);
        sl.insert(index, line);
        proof {
            assert(sl@ =~= old_strings.update(index as int, line));
            assert(sl.deep_view() =~~= old_lines.update(index as int, line@));
        }
        Ok(sl.merge())
    }

    fn insert(self, index: usize, line: String) -> (r: Result<Self, LineError>) {
        let mut sl = self.split();
        if index > sl.len() {
            return Err(LineError::IndexOutOfRange);
        }
        let ghost old_lines = sl.deep_view();
        sl.insert(index, line);
        proof {
            assert(sl.deep_view() =~~= old_lines.insert(index as int, line@));
        }
        Ok(sl.merge())
    }

    fn remove(self, index: usize) -> (r: Result<Self, LineError>) {
        let mut sl = self.split();
        if index >= sl.len() {
            return Err(LineError::IndexOutOfRange);
        }
        let ghost old_lines = sl.deep_view();
        sl.remove(index);
        proof {
            assert(sl.deep_view() =~~= old_lines.remove(index as int));
        }
        Ok(sl.merge())
    }

    fn append(self, line: String) -> (t: Self) {
        let mut sl = self.split();
        let ghost old_lines = sl.deep_view();
        sl.push(line);
        proof {
            assert(sl.deep_view() =~~= old_lines.push(line@));
        }
        sl.merge()
    }

    fn prepend(self, line: String) -> (t: Self) {
        let mut sl = self.split();
        let ghost old_lines = sl.deep_view();
        sl.insert(0, line);
        proof {
            assert(sl.deep_view() =~~= old_lines.insert(0, line@));
        }
        sl.merge()
    }

    fn first(&self) -> (r: Result<String, LineError>) {
        self.get(0)
    }

    fn last(&self) -> (r: Result<String, LineError>) {
        let n = self.count();
        if n == 0 {
            Err(LineError::IndexOutOfRange)
        } else {
            self.get(n - 1)
        }
    }

    fn remove_first(self) -> (r: Result<Self, LineError>) {
        self.remove(0)
    }

    fn remove_last(self) -> (r: Result<Self, LineError>) {
        let n = self.count();
        if n == 0 {
            return Err(LineError::IndexOutOfRange);
        }
        proof {
            assert(lines_of(self@).remove(n - 1) =~= lines_of(self@).drop_last());
        }
        self.remove(n - 1)
    }
}

} // verus!
