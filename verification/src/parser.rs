//! The line parser: one line of text as an assignment, or as nothing of the
//! kind.
use crate::lines::is_line;
use crate::text::{
    find_char, first_index_of, is_trimmed, is_whitespace, lemma_first_index_of_bounds,
    lemma_first_index_of_is, lemma_trim_bounds, lemma_trim_is_trimmed, lemma_trim_of_trimmed,
    substring, to_chars, trim, trim_range,
};
use vstd::prelude::*;

verus! {

/// Whether `line` is blank or a comment: nothing but whitespace, or `#` as
/// its first character that is no whitespace.
pub open spec fn is_blank_or_comment(line: Seq<char>) -> bool {
    trim(line).len() == 0 || trim(line)[0] == '#'
}

/// The name and the value that `line` assigns, if it is an assignment.
///
/// The line is trimmed first. A blank line and a comment assign nothing, nor
/// does a line without `=`. Otherwise the name is what stands before the first
/// `=` and the value is what stands behind it, both trimmed; a line with an
/// empty name assigns nothing.
pub open spec fn parse_line(line: Seq<char>) -> Option<(Seq<char>, Seq<char>)> {
    let t = trim(line);
    let k = first_index_of(t, '=');
    let name = trim(t.take(k));
    let value = trim(t.skip(k + 1));
    if is_blank_or_comment(line) || !(0 <= k < t.len()) || name.len() == 0 {
        None
    } else {
        Some((name, value))
    }
}

/// Whether `line` assigns a value to `name`.
pub open spec fn assigns_to(line: Seq<char>, name: Seq<char>) -> bool {
    parse_line(line) matches Some((n, _)) && n == name
}

/// Whether `name` can be the name of an assignment: not empty, trimmed,
/// without `=` and line feed, and not starting with `#`.
pub open spec fn valid_name(name: Seq<char>) -> bool {
    &&& name.len() > 0
    &&& is_trimmed(name)
    &&& name[0] != '#'
    &&& forall|j: int| 0 <= j < name.len() ==> name[j] != '=' && name[j] != '\n'
}

/// Whether `value` can be the value of an assignment: trimmed and without
/// line feed.
pub open spec fn valid_value(value: Seq<char>) -> bool {
    is_trimmed(value) && is_line(value)
}

/// The line that assigns `value` to `name`, in its canonical form.
pub open spec fn assignment(name: Seq<char>, value: Seq<char>) -> Seq<char> {
    name + seq!['='] + value
}

/// What a line assigns depends on the trimmed line alone.
pub proof fn lemma_parse_line_of_trim(a: Seq<char>, b: Seq<char>)
    requires
        trim(a) == trim(b),
    ensures
        parse_line(a) == parse_line(b),
{
}

/// The name and the value that a line assigns are valid.
pub proof fn lemma_parse_line_valid(line: Seq<char>)
    requires
        is_line(line),
    ensures
        parse_line(line) matches Some((name, value)) ==> valid_name(name) && valid_value(value),
{
    if let Some((name, value)) = parse_line(line) {
        let (a, _) = lemma_trim_bounds(line);
        let t = trim(line);
        lemma_trim_is_trimmed(line);
        let k = first_index_of(t, '=');
        lemma_first_index_of_bounds(t, '=');
        let left = t.take(k);
        let right = t.skip(k + 1);
        let (na, _) = lemma_trim_bounds(left);
        let (va, _) = lemma_trim_bounds(right);
        lemma_trim_is_trimmed(left);
        lemma_trim_is_trimmed(right);
        assert(left.len() > 0);
        assert(left[0] == t[0]);
        assert(na == 0) by {
            if na > 0 {
                assert(is_whitespace(left[0]));
            }
        }
        assert(name[0] == left[0]);
        assert forall|j: int| 0 <= j < name.len() implies name[j] != '=' && name[j] != '\n' by {
            assert(name[j] == left[na + j]);
            assert(left[na + j] == t[na + j]);
            assert(t[na + j] == line[a + na + j]);
        }
        assert forall|j: int| 0 <= j < value.len() implies value[j] != '\n' by {
            assert(value[j] == right[va + j]);
            assert(right[va + j] == t[k + 1 + va + j]);
            assert(t[k + 1 + va + j] == line[a + k + 1 + va + j]);
        }
    }
}

/// The canonical line for a valid name and a valid value assigns that value
/// to that name.
pub proof fn lemma_parse_assignment(name: Seq<char>, value: Seq<char>)
    requires
        valid_name(name),
        valid_value(value),
    ensures
        parse_line(assignment(name, value)) == Some((name, value)),
        is_trimmed(assignment(name, value)),
        is_line(assignment(name, value)),
{
    let c = assignment(name, value);
    let k = name.len() as int;
    assert(c[0] == name[0]);
    assert(c[k] == '=');
    if value.len() > 0 {
        assert(c.last() == value.last());
    } else {
        assert(c.last() == '=');
    }
    lemma_trim_of_trimmed(c);
    assert forall|j: int| 0 <= j < k implies #[trigger] c[j] != '=' by {
        assert(c[j] == name[j]);
    }
    lemma_first_index_of_is(c, '=', k);
    assert(c.take(k) =~= name);
    assert(c.skip(k + 1) =~= value);
    lemma_trim_of_trimmed(name);
    lemma_trim_of_trimmed(value);
    assert forall|j: int| 0 <= j < c.len() implies c[j] != '\n' by {
        if j < k {
            assert(c[j] == name[j]);
        } else if j > k {
            assert(c[j] == value[j - k - 1]);
        }
    }
}

/// The name and the value that `line` assigns, if it is an assignment.
pub fn split_var_name_value(line: &str) -> (r: Option<(String, String)>)
    ensures
        match r {
            Some((name, value)) => parse_line(line@) == Some((name@, value@)),
            None => parse_line(line@) is None,
        },
        is_blank_or_comment(line@) ==> r is None,
{
    let v = to_chars(line);
    let n = v.len();
    assert(v@.subrange(0, n as int) =~= v@);
    let (a, b) = trim_range(&v, 0, n);
    let ghost t = trim(v@);
    if a == b || v[a] == '#' {
        assert(is_blank_or_comment(line@)) by {
            if a < b {
                assert(t[0] == v@[a as int]);
            }
        }
        return None;
    }
    assert(t[0] == v@[a as int]);
    let eq = find_char(&v, '=', a, b);
    if eq == b {
        return None;
    }
    let (name_lo, name_hi) = trim_range(&v, a, eq);
    let (value_lo, value_hi) = trim_range(&v, eq + 1, b);
    proof {
        assert(t.take(eq - a) =~= v@.subrange(a as int, eq as int));
        assert(t.skip(eq - a + 1) =~= v@.subrange(eq + 1, b as int));
    }
    if name_lo == name_hi {
        return None;
    }
    let name = substring(&v, name_lo, name_hi);
    let value = substring(&v, value_lo, value_hi);
    Some((name, value))
}

} // verus!
