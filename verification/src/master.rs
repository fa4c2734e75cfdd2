//! The master table: the canonical value of each variable name.
use crate::lines::{is_line, lemma_lines_of_are_lines, lines_of, split_lines};
use crate::parser::{
    assigns_to, is_blank_or_comment, lemma_parse_line_valid, parse_line, split_var_name_value,
    valid_name, valid_value,
};
use crate::text::views;
use vstd::hash_map::StringHashMap;
use vstd::prelude::*;

verus! {

/// `table` after the line `line` of a master file: what the line assigns is
/// entered, in place of an earlier value of that name.
pub open spec fn record_line(table: Map<Seq<char>, Seq<char>>, line: Seq<char>) -> Map<
    Seq<char>,
    Seq<char>,
> {
    match parse_line(line) {
        Some((name, value)) => table.insert(name, value),
        None => table,
    }
}

/// The table that the lines of a master file give, taken in their order.
pub open spec fn table_of_lines(lines: Seq<Seq<char>>) -> Map<Seq<char>, Seq<char>>
    decreases lines.len(),
{
    if lines.len() == 0 {
        Map::empty()
    } else {
        record_line(table_of_lines(lines.drop_last()), lines.last())
    }
}

/// The table that a master file with the content `text` gives.
pub open spec fn table_of(text: Seq<char>) -> Map<Seq<char>, Seq<char>> {
    table_of_lines(lines_of(text))
}

/// Whether every name and every value of `table` is valid.
pub open spec fn well_formed_table(table: Map<Seq<char>, Seq<char>>) -> bool {
    forall|name: Seq<char>| #[trigger]
        table.contains_key(name) ==> valid_name(name) && valid_value(table[name])
}

/// The table that lines give is well formed.
pub proof fn lemma_table_of_lines_well_formed(lines: Seq<Seq<char>>)
    requires
        forall|i: int| 0 <= i < lines.len() ==> is_line(#[trigger] lines[i]),
    ensures
        well_formed_table(table_of_lines(lines)),
    decreases lines.len(),
{
    if lines.len() > 0 {
        let init = lines.drop_last();
        assert forall|i: int| 0 <= i < init.len() implies is_line(#[trigger] init[i]) by {
            assert(init[i] == lines[i]);
        }
        lemma_table_of_lines_well_formed(init);
        assert(is_line(lines.last()));
        lemma_parse_line_valid(lines.last());
    }
}

/// The table that a master file gives is well formed, whatever the file holds.
pub proof fn lemma_table_of_well_formed(text: Seq<char>)
    ensures
        well_formed_table(table_of(text)),
{
    lemma_lines_of_are_lines(text);
    lemma_table_of_lines_well_formed(lines_of(text));
}

/// A blank line, a comment and any other line that assigns nothing leaves no
/// trace in the table: the lines without it give the same table.
pub proof fn lemma_opaque_line_not_recorded(lines: Seq<Seq<char>>, i: int)
    requires
        0 <= i < lines.len(),
        is_blank_or_comment(lines[i]) || parse_line(lines[i]) is None,
    ensures
        table_of_lines(lines.remove(i)) == table_of_lines(lines),
    decreases lines.len(),
{
    if i == lines.len() - 1 {
        assert(lines.remove(i) =~= lines.drop_last());
    } else {
        lemma_opaque_line_not_recorded(lines.drop_last(), i);
        assert(lines.remove(i).drop_last() =~= lines.drop_last().remove(i));
        assert(lines.remove(i).last() == lines.last());
    }
}

/// The table holds a name if and only if some line assigns to it.
pub proof fn lemma_table_names(lines: Seq<Seq<char>>, name: Seq<char>)
    ensures
        table_of_lines(lines).contains_key(name) <==> exists|i: int|
            0 <= i < lines.len() && #[trigger] assigns_to(lines[i], name),
    decreases lines.len(),
{
    if lines.len() > 0 {
        let init = lines.drop_last();
        lemma_table_names(init, name);
        if table_of_lines(lines).contains_key(name) {
            if table_of_lines(init).contains_key(name) {
                let i = choose|i: int| 0 <= i < init.len() && #[trigger] assigns_to(init[i], name);
                assert(assigns_to(lines[i], name));
            } else {
                assert(assigns_to(lines[lines.len() - 1], name));
            }
        }
        if exists|i: int| 0 <= i < lines.len() && #[trigger] assigns_to(lines[i], name) {
            let i = choose|i: int| 0 <= i < lines.len() && #[trigger] assigns_to(lines[i], name);
            if i < lines.len() - 1 {
                assert(assigns_to(init[i], name));
            }
        }
    }
}

/// The last line that assigns to a name gives the name's value.
pub proof fn lemma_last_assignment_wins(
    lines: Seq<Seq<char>>,
    i: int,
    name: Seq<char>,
    value: Seq<char>,
)
    requires
        0 <= i < lines.len(),
        parse_line(lines[i]) == Some((name, value)),
        forall|j: int| i < j < lines.len() ==> !#[trigger] assigns_to(lines[j], name),
    ensures
        table_of_lines(lines).contains_key(name),
        table_of_lines(lines)[name] == value,
    decreases lines.len(),
{
    if i < lines.len() - 1 {
        let init = lines.drop_last();
        assert(init[i] == lines[i]);
        assert forall|j: int| i < j < init.len() implies !#[trigger] assigns_to(init[j], name) by {
            assert(init[j] == lines[j]);
        }
        lemma_last_assignment_wins(init, i, name, value);
        assert(!assigns_to(lines[lines.len() - 1], name));
    }
}

/// The master table: the canonical value of each variable name.
pub struct MasterTable {
    entries: StringHashMap<String>,
}

impl View for MasterTable {
    type V = Map<Seq<char>, Seq<char>>;

    /// The value of each name, both as character sequences.
    closed spec fn view(&self) -> Map<Seq<char>, Seq<char>> {
        self.entries@.map_values(|value: String| value@)
    }
}

impl MasterTable {
    /// Whether every name and every value of the table is valid.
    pub open spec fn wf(&self) -> bool {
        well_formed_table(self@)
    }

    /// The empty table.
    pub fn new() -> (table: Self)
        ensures
            table@ == Map::<Seq<char>, Seq<char>>::empty(),
            table.wf(),
    {
        let table = MasterTable { entries: StringHashMap::new() };
        assert(table@ =~= Map::<Seq<char>, Seq<char>>::empty());
        table
    }

    /// Enters what `line` assigns, if it assigns anything.
    fn record(&mut self, line: &str)
        requires
            old(self).wf(),
            is_line(line@),
        ensures
            final(self)@ == record_line(old(self)@, line@),
            final(self).wf(),
    {
        if let Some((name, value)) = split_var_name_value(line) {
            let ghost entered = self@.insert(name@, value@);
            self.entries.insert(name, value);
            proof {
                assert(self@ =~= entered);
                lemma_parse_line_valid(line@);
            }
        }
    }

    /// The table that a master file with the content `text` gives: each line
    /// that is an assignment enters its value under its name, a later line in
    /// place of an earlier one, and every other line is passed over.
    pub fn from_text(text: &str) -> (table: Self)
        ensures
            table@ == table_of(text@),
            table.wf(),
            forall|name: Seq<char>| #[trigger]
                table@.contains_key(name) <==> exists|i: int|
                    0 <= i < lines_of(text@).len() && #[trigger] assigns_to(
                        lines_of(text@)[i],
                        name,
                    ),
    {
        let lines = split_lines(text);
        let mut table = MasterTable::new();
        let mut i: usize = 0;
        proof {
            lemma_lines_of_are_lines(text@);
            assert(views(lines@).take(0) =~= Seq::<Seq<char>>::empty());
        }
        while i < lines.len()
            invariant
                0 <= i <= lines.len(),
                table.wf(),
                table@ == table_of_lines(views(lines@).take(i as int)),
                forall|j: int| 0 <= j < lines.len() ==> is_line(#[trigger] views(lines@)[j]),
            decreases lines.len() - i,
        {
            assert(is_line(views(lines@)[i as int]));
            table.record(lines[i].as_str());
            i += 1;
            proof {
                let done = views(lines@).take(i as int);
                assert(done.drop_last() =~= views(lines@).take(i - 1));
                assert(done.last() == lines@[i - 1]@);
            }
        }
        proof {
            assert(views(lines@).take(i as int) =~= views(lines@));
            assert forall|name: Seq<char>| #[trigger]
                table@.contains_key(name) <==> exists|i: int|
                    0 <= i < lines_of(text@).len() && #[trigger] assigns_to(
                        lines_of(text@)[i],
                        name,
                    ) by {
                lemma_table_names(lines_of(text@), name);
            }
        }
        table
    }

    /// The canonical value of `name`, if the table holds the name.
    pub fn get(&self, name: &str) -> (value: Option<&String>)
        ensures
            match value {
                Some(v) => self@.contains_key(name@) && self@[name@] == v@,
                None => !self@.contains_key(name@),
            },
    {
        self.entries.get(name)
    }

    /// Whether the table holds `name`.
    pub fn contains_key(&self, name: &str) -> (b: bool)
        ensures
            b == self@.contains_key(name@),
    {
        self.entries.contains_key(name)
    }

    /// The number of names in the table.
    pub fn len(&self) -> (n: usize)
        ensures
            n == self@.len(),
    {
        assert(self@.dom() =~= self.entries@.dom());
        self.entries.len()
    }
}

} // verus!
