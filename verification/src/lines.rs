//! A text as a sequence of lines, and a sequence of lines as a text.
use crate::text::{
    find_char, first_index_of, lemma_first_index_of_bounds, is_whitespace,
    lemma_first_index_of_is, lemma_trim_bounds, lemma_trim_is, substring, to_chars, trim, views,
};
use vstd::prelude::*;
use vstd::string::*;

verus! {

/// Whether `l` can be one line of a text: it holds no line feed.
pub open spec fn is_line(l: Seq<char>) -> bool {
    forall|j: int| 0 <= j < l.len() ==> l[j] != '\n'
}

/// `l` without the carriage return at its end, if it has one.
pub open spec fn strip_cr(l: Seq<char>) -> Seq<char> {
    if l.len() > 0 && l.last() == '\r' {
        l.drop_last()
    } else {
        l
    }
}

/// The lines of `text`. A line ends with a line feed, or with a carriage
/// return and a line feed; neither belongs to the line. What follows the last
/// line feed is a line too, unless it is empty.
pub open spec fn lines_of(text: Seq<char>) -> Seq<Seq<char>>
    decreases text.len(),
{
    let k = first_index_of(text, '\n');
    if text.len() == 0 {
        Seq::empty()
    } else if 0 <= k < text.len() {
        seq![strip_cr(text.take(k))] + lines_of(text.skip(k + 1))
    } else {
        seq![text]
    }
}

/// The lines of `lines` with one line feed between each two.
pub open spec fn joined(lines: Seq<Seq<char>>) -> Seq<char>
    decreases lines.len(),
{
    if lines.len() == 0 {
        Seq::empty()
    } else if lines.len() == 1 {
        lines[0]
    } else {
        joined(lines.drop_last()) + seq!['\n'] + lines.last()
    }
}

/// The lines of the text that `joined(lines)` is: a carriage return at the
/// end of a line but the last is lost with the line feed behind it, and an
/// empty last line is no line.
pub open spec fn reread(lines: Seq<Seq<char>>) -> Seq<Seq<char>>
    decreases lines.len(),
{
    if lines.len() == 0 {
        Seq::empty()
    } else if lines.len() == 1 {
        if lines[0].len() == 0 {
            Seq::empty()
        } else {
            seq![lines[0]]
        }
    } else {
        seq![strip_cr(lines[0])] + reread(lines.drop_first())
    }
}

/// Every line of a text is free of line feeds.
pub proof fn lemma_lines_of_are_lines(text: Seq<char>)
    ensures
        forall|i: int| 0 <= i < lines_of(text).len() ==> is_line(#[trigger] lines_of(text)[i]),
    decreases text.len(),
{
    let k = first_index_of(text, '\n');
    lemma_first_index_of_bounds(text, '\n');
    if text.len() == 0 {
    } else if k < text.len() {
        let rest = text.skip(k + 1);
        lemma_lines_of_are_lines(rest);
        let head = strip_cr(text.take(k));
        assert(is_line(head)) by {
            assert forall|j: int| 0 <= j < head.len() implies head[j] != '\n' by {
                assert(head[j] == text[j]);
            }
        }
        assert forall|i: int| 0 <= i < lines_of(text).len() implies is_line(
            #[trigger] lines_of(text)[i],
        ) by {
            if i > 0 {
                assert(lines_of(text)[i] == lines_of(rest)[i - 1]);
            }
        }
    } else {
        assert(is_line(text));
    }
}

/// With two lines or more, `joined` is the first line, a line feed, and the
/// others joined.
pub proof fn lemma_joined_front(lines: Seq<Seq<char>>)
    requires
        lines.len() >= 2,
    ensures
        joined(lines) == lines[0] + seq!['\n'] + joined(lines.drop_first()),
    decreases lines.len(),
{
    let tail = lines.drop_first();
    if lines.len() == 2 {
        assert(lines.drop_last().len() == 1);
        assert(joined(lines.drop_last()) == lines[0]);
        assert(joined(tail) == lines[1]);
    } else {
        let init = lines.drop_last();
        lemma_joined_front(init);
        assert(init.drop_first() =~= tail.drop_last());
        assert(tail.last() == lines.last());
        assert(joined(lines) =~= lines[0] + seq!['\n'] + joined(tail));
    }
}

/// Reading back what `joined` wrote gives `reread`.
pub proof fn lemma_lines_of_joined(lines: Seq<Seq<char>>)
    requires
        forall|i: int| 0 <= i < lines.len() ==> is_line(#[trigger] lines[i]),
    ensures
        lines_of(joined(lines)) == reread(lines),
    decreases lines.len(),
{
    if lines.len() == 0 {
    } else if lines.len() == 1 {
        let l = lines[0];
        assert(is_line(l));
        lemma_first_index_of_is(l, '\n', l.len() as int);
    } else {
        let l = lines[0];
        let tail = lines.drop_first();
        let text = joined(lines);
        lemma_joined_front(lines);
        assert(is_line(l));
        assert forall|i: int| 0 <= i < tail.len() implies is_line(#[trigger] tail[i]) by {
            assert(tail[i] == lines[i + 1]);
        }
        lemma_lines_of_joined(tail);
        let k = l.len() as int;
        assert(text[k] == '\n');
        assert forall|j: int| 0 <= j < k implies #[trigger] text[j] != '\n' by {
            assert(text[j] == l[j]);
        }
        lemma_first_index_of_is(text, '\n', k);
        assert(text.take(k) =~= l);
        assert(text.skip(k + 1) =~= joined(tail));
    }
}

/// What `reread` gives, line by line: each line as it was or without the
/// carriage return at its end, and all of them but, at most, an empty last
/// one.
pub proof fn lemma_reread_lines(lines: Seq<Seq<char>>)
    ensures
        reread(lines).len() <= lines.len(),
        forall|i: int|
            0 <= i < reread(lines).len() ==> (#[trigger] reread(lines)[i]) == lines[i]
                || reread(lines)[i] == strip_cr(lines[i]),
        lines.len() > 0 && lines.last().len() > 0 ==> reread(lines).len() == lines.len(),
        lines.len() > 0 && lines.last().len() == 0 ==> reread(lines).len() == lines.len() - 1,
    decreases lines.len(),
{
    if lines.len() >= 2 {
        let tail = lines.drop_first();
        lemma_reread_lines(tail);
        assert(tail.last() == lines.last());
        assert forall|i: int| 0 <= i < reread(lines).len() implies (#[trigger] reread(lines)[i])
            == lines[i] || reread(lines)[i] == strip_cr(lines[i]) by {
            if i > 0 {
                assert(reread(lines)[i] == reread(tail)[i - 1]);
                assert(tail[i - 1] == lines[i]);
            }
        }
    }
}

/// A carriage return at the end of a line is trimmed away with the rest of
/// the whitespace.
pub proof fn lemma_trim_strip_cr(l: Seq<char>)
    ensures
        trim(strip_cr(l)) == trim(l),
{
    if l.len() > 0 && l.last() == '\r' {
        let s = l.drop_last();
        let (a, b) = lemma_trim_bounds(s);
        assert forall|j: int| 0 <= j < a implies is_whitespace(#[trigger] l[j]) by {
            assert(l[j] == s[j]);
        }
        assert forall|j: int| b <= j < l.len() implies is_whitespace(
            #[trigger] l[j],
        ) by {
            if j < s.len() {
                assert(l[j] == s[j]);
            }
        }
        if a < b {
            assert(l[a] == s[a]);
            assert(l[b - 1] == s[b - 1]);
        }
        lemma_trim_is(l, a, b);
        assert(l.subrange(a, b) =~= s.subrange(a, b));
    }
}

/// The lines of `text`.
pub fn split_lines(text: &str) -> (lines: Vec<String>)
    ensures
        views(lines@) == lines_of(text@),
{
    let v = to_chars(text);
    let n = v.len();
    let mut lines: Vec<String> = Vec::new();
    let mut start: usize = 0;
    assert(v@.skip(0) =~= v@);
    while start < n
        invariant
            start <= n == v.len(),
            lines_of(v@) == views(lines@) + lines_of(v@.skip(start as int)),
        decreases n - start,
    {
        let ghost before = views(lines@);
        let ghost rest = v@.skip(start as int);
        assert(rest =~= v@.subrange(start as int, n as int));
        let k = find_char(&v, '\n', start, n);
        if k == n {
            let line = substring(&v, start, n);
            lines.push(line);
            start = n;
            proof {
                assert(lines_of(rest) =~= seq![rest]);
                assert(lines_of(v@.skip(n as int)) =~= Seq::<Seq<char>>::empty());
                assert(views(lines@) =~= before + seq![rest]);
            }
        } else {
            proof {
                lemma_first_index_of_bounds(rest, '\n');
                assert(rest[k - start] == v@[k as int]);
            }
            let end = if k > start && v[k - 1] == '\r' {
                k - 1
            } else {
                k
            };
            let line = substring(&v, start, end);
            lines.push(line);
            proof {
                let piece = rest.take(k - start);
                assert(piece =~= v@.subrange(start as int, k as int));
                assert(k > start ==> piece.last() == v@[k - 1]);
                assert(strip_cr(piece) =~= v@.subrange(start as int, end as int));
                assert(rest.skip(k - start + 1) =~= v@.skip(k + 1));
                assert(views(lines@) =~= before + seq![strip_cr(piece)]);
                assert(lines_of(v@) =~= views(lines@) + lines_of(v@.skip(k + 1)));
            }
            start = k + 1;
        }
    }
    assert(lines_of(v@.skip(start as int)) =~= Seq::<Seq<char>>::empty());
    assert(views(lines@) =~= lines_of(v@));
    lines
}

/// The lines of `lines` with one line feed between each two.
pub fn join_lines(lines: &Vec<String>) -> (text: String)
    ensures
        text@ == joined(views(lines@)),
{
    let mut text = String::new();
    let mut i: usize = 0;
    assert(views(lines@).take(0) =~= Seq::<Seq<char>>::empty());
    while i < lines.len()
        invariant
            0 <= i <= lines.len(),
            text@ == joined(views(lines@).take(i as int)),
        decreases lines.len() - i,
    {
        if i > 0 {
            text.push('\n');
        }
        text.append(lines[i].as_str());
        i += 1;
        proof {
            let done = views(lines@).take(i as int);
            assert(done.drop_last() =~= views(lines@).take(i - 1));
            assert(done.last() == lines@[i - 1]@);
            assert(text@ =~= joined(done));
        }
    }
    assert(views(lines@).take(i as int) =~= views(lines@));
    text
}

} // verus!
