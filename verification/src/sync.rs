//! The file synchroniser: the lines of a file brought in line with the master
//! table.
use crate::lines::{
    is_line, join_lines, joined, lemma_lines_of_are_lines, lemma_lines_of_joined,
    lemma_reread_lines, lemma_trim_strip_cr, lines_of, reread, split_lines, strip_cr,
};
use crate::master::{well_formed_table, MasterTable};
use crate::parser::{
    assignment, assigns_to, is_blank_or_comment, lemma_parse_assignment,
    lemma_parse_line_of_trim, parse_line, split_var_name_value,
};
use crate::text::{is_trimmed, is_whitespace, views};
use vstd::prelude::*;
use vstd::string::*;

verus! {

/// What `line` has to be under `table`: the canonical assignment of the
/// table's value, if the line assigns to a name of the table; else the line
/// itself.
pub open spec fn expected_line(line: Seq<char>, table: Map<Seq<char>, Seq<char>>) -> Seq<char> {
    match parse_line(line) {
        Some((name, _)) => if table.contains_key(name) {
            assignment(name, table[name])
        } else {
            line
        },
        None => line,
    }
}

/// `lines`, each as it has to be under `table`.
pub open spec fn rewritten(lines: Seq<Seq<char>>, table: Map<Seq<char>, Seq<char>>) -> Seq<
    Seq<char>,
> {
    Seq::new(lines.len(), |i: int| expected_line(lines[i], table))
}

/// The number of lines of `lines` that are not as they have to be under
/// `table`.
pub open spec fn changed_count(lines: Seq<Seq<char>>, table: Map<Seq<char>, Seq<char>>) -> nat
    decreases lines.len(),
{
    if lines.len() == 0 {
        0
    } else if expected_line(lines.last(), table) != lines.last() {
        changed_count(lines.drop_last(), table) + 1
    } else {
        changed_count(lines.drop_last(), table)
    }
}

/// Whether a file with the content `text` has a line that is not as it has to
/// be under `table`.
pub open spec fn needs_rewrite(text: Seq<char>, table: Map<Seq<char>, Seq<char>>) -> bool {
    rewritten(lines_of(text), table) != lines_of(text)
}

/// The content of a file after its synchronisation with `table`, `text` being
/// its content before: the rewritten lines joined, if a line had to change;
/// else `text`, untouched.
pub open spec fn synced(text: Seq<char>, table: Map<Seq<char>, Seq<char>>) -> Seq<char> {
    if needs_rewrite(text, table) {
        joined(rewritten(lines_of(text), table))
    } else {
        text
    }
}

/// No line counts as changed if and only if rewriting changes nothing.
pub proof fn lemma_changed_count(lines: Seq<Seq<char>>, table: Map<Seq<char>, Seq<char>>)
    ensures
        changed_count(lines, table) <= lines.len(),
        changed_count(lines, table) == 0 <==> rewritten(lines, table) == lines,
    decreases lines.len(),
{
    if lines.len() > 0 {
        let init = lines.drop_last();
        lemma_changed_count(init, table);
        if rewritten(lines, table) == lines {
            assert(rewritten(lines, table)[lines.len() - 1] == lines.last());
            assert forall|i: int| 0 <= i < init.len() implies rewritten(init, table)[i]
                == init[i] by {
                assert(rewritten(lines, table)[i] == lines[i]);
            }
            assert(rewritten(init, table) =~= init);
        }
        if changed_count(lines, table) == 0 {
            assert forall|i: int| 0 <= i < lines.len() implies rewritten(lines, table)[i]
                == lines[i] by {
                if i < init.len() {
                    assert(rewritten(init, table)[i] == init[i]);
                }
            }
            assert(rewritten(lines, table) =~= lines);
        }
    } else {
        assert(rewritten(lines, table) =~= lines);
    }
}

/// Each line of a synchronised file, by what the line was: a blank line, a
/// comment and any other line that assigns nothing is kept; so is a line that
/// assigns to a name that the table lacks; a line that assigns to a name of
/// the table is the canonical assignment of the table's value. There are as
/// many lines as before.
pub proof fn lemma_rewritten_line(
    lines: Seq<Seq<char>>,
    table: Map<Seq<char>, Seq<char>>,
    i: int,
    name: Seq<char>,
)
    requires
        0 <= i < lines.len(),
    ensures
        rewritten(lines, table).len() == lines.len(),
        is_blank_or_comment(lines[i]) ==> rewritten(lines, table)[i] == lines[i],
        parse_line(lines[i]) is None ==> rewritten(lines, table)[i] == lines[i],
        assigns_to(lines[i], name) && !table.contains_key(name) ==> rewritten(lines, table)[i]
            == lines[i],
        assigns_to(lines[i], name) && table.contains_key(name) ==> rewritten(lines, table)[i]
            == assignment(name, table[name]),
{
}

/// A line of a file stays a line when it is rewritten.
pub proof fn lemma_expected_line_is_line(line: Seq<char>, table: Map<Seq<char>, Seq<char>>)
    requires
        well_formed_table(table),
        is_line(line),
    ensures
        is_line(expected_line(line, table)),
{
    if let Some((name, _)) = parse_line(line) {
        if table.contains_key(name) {
            lemma_parse_assignment(name, table[name]);
        }
    }
}

/// A line that was rewritten is as it has to be.
pub proof fn lemma_expected_line_settled(line: Seq<char>, table: Map<Seq<char>, Seq<char>>)
    requires
        well_formed_table(table),
    ensures
        expected_line(expected_line(line, table), table) == expected_line(line, table),
{
    if let Some((name, _)) = parse_line(line) {
        if table.contains_key(name) {
            lemma_parse_assignment(name, table[name]);
        }
    }
}

/// A line that is as it has to be stays so without the carriage return at
/// its end.
pub proof fn lemma_expected_line_strip_cr(line: Seq<char>, table: Map<Seq<char>, Seq<char>>)
    requires
        well_formed_table(table),
        expected_line(line, table) == line,
    ensures
        expected_line(strip_cr(line), table) == strip_cr(line),
{
    let s = strip_cr(line);
    if s != line {
        lemma_trim_strip_cr(line);
        lemma_parse_line_of_trim(s, line);
        if let Some((name, _)) = parse_line(line) {
            if table.contains_key(name) {
                lemma_parse_assignment(name, table[name]);
                assert(is_trimmed(line));
                assert(is_whitespace(line.last()));
            }
        }
    }
}

/// Synchronising twice is synchronising once: after one synchronisation no
/// line has to change, so that the second one writes nothing and leaves the
/// content as the first one left it.
pub proof fn lemma_synced_idempotent(text: Seq<char>, table: Map<Seq<char>, Seq<char>>)
    requires
        well_formed_table(table),
    ensures
        !needs_rewrite(synced(text, table), table),
        synced(synced(text, table), table) == synced(text, table),
{
    if needs_rewrite(text, table) {
        let old_lines = lines_of(text);
        let new_lines = rewritten(old_lines, table);
        lemma_lines_of_are_lines(text);
        assert forall|i: int| 0 <= i < new_lines.len() implies is_line(#[trigger] new_lines[i]) by {
            lemma_expected_line_is_line(old_lines[i], table);
        }
        lemma_lines_of_joined(new_lines);
        lemma_reread_lines(new_lines);
        let read = reread(new_lines);
        assert forall|i: int| 0 <= i < read.len() implies rewritten(read, table)[i] == read[i] by {
            lemma_expected_line_settled(old_lines[i], table);
            lemma_expected_line_strip_cr(new_lines[i], table);
        }
        assert(rewritten(read, table) =~= read);
    }
}

/// A synchronised file has as many lines as it had before, unless it was
/// rewritten and its last line was empty: that line is not written.
pub proof fn lemma_line_count_preserved(text: Seq<char>, table: Map<Seq<char>, Seq<char>>)
    requires
        well_formed_table(table),
        needs_rewrite(text, table) ==> lines_of(text).last().len() > 0,
    ensures
        rewritten(lines_of(text), table).len() == lines_of(text).len(),
        lines_of(synced(text, table)).len() == lines_of(text).len(),
{
    if needs_rewrite(text, table) {
        let old_lines = lines_of(text);
        let new_lines = rewritten(old_lines, table);
        assert(old_lines.len() > 0) by {
            if old_lines.len() == 0 {
                assert(new_lines =~= old_lines);
            }
        }
        lemma_lines_of_are_lines(text);
        assert forall|i: int| 0 <= i < new_lines.len() implies is_line(#[trigger] new_lines[i]) by {
            lemma_expected_line_is_line(old_lines[i], table);
        }
        lemma_lines_of_joined(new_lines);
        lemma_reread_lines(new_lines);
        assert(new_lines.last() == expected_line(old_lines.last(), table));
    }
}

/// What `line` has to be under `master`: `NAME=VALUE` with the master's value,
/// if the line assigns to a name of the master table; else the line itself,
/// untouched.
pub fn get_line_expected(line: &str, master: &MasterTable) -> (expected: String)
    ensures
        expected@ == expected_line(line@, master@),
        is_blank_or_comment(line@) ==> expected@ == line@,
        parse_line(line@) is None ==> expected@ == line@,
        forall|name: Seq<char>|
            assigns_to(line@, name) && !master@.contains_key(name) ==> expected@ == line@,
        forall|name: Seq<char>|
            assigns_to(line@, name) && master@.contains_key(name) ==> expected@ == assignment(
                name,
                master@[name],
            ),
{
    if let Some((name, _)) = split_var_name_value(line) {
        if let Some(value) = master.get(name.as_str()) {
            let mut expected = name;
            expected.push('=');
            expected.append(value.as_str());
            assert(expected@ =~= assignment(name@, value@));
            return expected;
        }
    }
    line.to_owned()
}

/// What the synchronisation of one file comes to.
#[derive(Debug, PartialEq, Eq)]
pub enum FileRewrite {
    /// Every line is as it has to be: nothing is to be written.
    Unchanged,
    /// At least one line had to change: `content` is to be written in place of
    /// the file's content, and `changed_lines` lines of it differ from what
    /// they were.
    Rewritten { content: String, changed_lines: usize },
}

/// A `FileRewrite` with its content as a character sequence.
pub enum Outcome {
    Unchanged,
    Rewritten { content: Seq<char>, changed_lines: nat },
}

impl View for FileRewrite {
    type V = Outcome;

    open spec fn view(&self) -> Outcome {
        match *self {
            FileRewrite::Unchanged => Outcome::Unchanged,
            FileRewrite::Rewritten { content, changed_lines } => Outcome::Rewritten {
                content: content@,
                changed_lines: changed_lines as nat,
            },
        }
    }
}

/// What the synchronisation of a file with the content `text` with `table`
/// comes to: nothing, if every line is as it has to be; else the rewritten
/// lines joined, and the number of lines that changed.
pub open spec fn outcome_of(text: Seq<char>, table: Map<Seq<char>, Seq<char>>) -> Outcome {
    if needs_rewrite(text, table) {
        Outcome::Rewritten {
            content: joined(rewritten(lines_of(text), table)),
            changed_lines: changed_count(lines_of(text), table),
        }
    } else {
        Outcome::Unchanged
    }
}

/// Synchronises a file with the content `content` with `master`: each line is
/// brought to what it has to be, and if any line changed thereby, the lines
/// are joined to the file's new content.
pub fn synchronize(content: &str, master: &MasterTable) -> (outcome: FileRewrite)
    ensures
        outcome@ == outcome_of(content@, master@),
        outcome is Rewritten <==> needs_rewrite(content@, master@),
        outcome is Rewritten ==> (outcome->content)@ == synced(content@, master@),
        outcome is Rewritten ==> 0 < outcome->changed_lines <= lines_of(content@).len(),
        rewritten(lines_of(content@), master@).len() == lines_of(content@).len(),
        master.wf() && (outcome is Rewritten ==> lines_of(content@).last().len() > 0) ==> lines_of(
            synced(content@, master@),
        ).len() == lines_of(content@).len(),
{
    let lines = split_lines(content);
    let mut new_lines: Vec<String> = Vec::new();
    let mut changed: usize = 0;
    let mut i: usize = 0;
    assert(views(lines@).take(0) =~= Seq::<Seq<char>>::empty());
    assert(views(new_lines@) =~= rewritten(views(lines@).take(0), master@));
    while i < lines.len()
        invariant
            0 <= i <= lines.len(),
            changed <= i,
            new_lines.len() == i,
            views(new_lines@) == rewritten(views(lines@).take(i as int), master@),
            changed == changed_count(views(lines@).take(i as int), master@),
        decreases lines.len() - i,
    {
        let ghost before = views(new_lines@);
        let expected = get_line_expected(lines[i].as_str(), master);
        if !(expected == lines[i]) {
            changed += 1;
        }
        new_lines.push(expected);
        i += 1;
        proof {
            let done = views(lines@).take(i as int);
            assert(done.drop_last() =~= views(lines@).take(i - 1));
            assert(done.last() == lines@[i - 1]@);
            assert forall|j: int| 0 <= j < i implies views(new_lines@)[j] == expected_line(
                done[j],
                master@,
            ) by {
                if j < i - 1 {
                    assert(views(new_lines@)[j] == before[j]);
                }
            }
            assert(views(new_lines@) =~= rewritten(done, master@));
        }
    }
    proof {
        assert(views(lines@).take(i as int) =~= views(lines@));
        lemma_changed_count(lines_of(content@), master@);
        if master.wf() && (changed > 0 ==> lines_of(content@).last().len() > 0) {
            lemma_line_count_preserved(content@, master@);
        }
    }
    if changed > 0 {
        FileRewrite::Rewritten { content: join_lines(&new_lines), changed_lines: changed }
    } else {
        FileRewrite::Unchanged
    }
}

} // verus!
