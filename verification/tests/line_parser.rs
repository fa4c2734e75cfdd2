use masterenv::split_var_name_value;

fn pair(name: &str, value: &str) -> Option<(String, String)> {
    Some((String::from(name), String::from(value)))
}

/// The line parser written with std's own trimming and searching.
fn by_std(line: &str) -> Option<(String, String)> {
    let trimmed = line.trim();
    if trimmed.is_empty() || trimmed.starts_with('#') {
        return None;
    }
    let at = trimmed.find('=')?;
    let name = trimmed[..at].trim();
    let value = trimmed[at + 1..].trim();
    if name.is_empty() {
        return None;
    }
    Some((String::from(name), String::from(value)))
}

#[test]
fn plain_assignment() {
    assert_eq!(split_var_name_value("API_URL=http://localhost:8080"), pair("API_URL", "http://localhost:8080"));
    assert_eq!(split_var_name_value("DEBUG=true"), pair("DEBUG", "true"));
}

#[test]
fn whitespace_around_name_and_value_is_trimmed() {
    assert_eq!(split_var_name_value("  KEY =  value  "), pair("KEY", "value"));
    assert_eq!(split_var_name_value("\tKEY\t=\tvalue\r"), pair("KEY", "value"));
    assert_eq!(split_var_name_value("KEY = a b  c "), pair("KEY", "a b  c"));
    assert_eq!(split_var_name_value("\u{a0}KEY\u{3000}=\u{2003}v\u{85}"), pair("KEY", "v"));
}

#[test]
fn only_the_first_equals_sign_splits() {
    assert_eq!(split_var_name_value("A=b=c"), pair("A", "b=c"));
    assert_eq!(split_var_name_value("A==="), pair("A", "=="));
    assert_eq!(split_var_name_value("URL=http://h/?q=1&r=2"), pair("URL", "http://h/?q=1&r=2"));
}

#[test]
fn empty_value_is_an_assignment() {
    assert_eq!(split_var_name_value("KEY="), pair("KEY", ""));
    assert_eq!(split_var_name_value("KEY =   "), pair("KEY", ""));
}

#[test]
fn blank_lines_assign_nothing() {
    assert_eq!(split_var_name_value(""), None);
    assert_eq!(split_var_name_value("   "), None);
    assert_eq!(split_var_name_value("\t\r"), None);
    assert_eq!(split_var_name_value("\u{a0}\u{3000}"), None);
}

#[test]
fn comments_assign_nothing() {
    assert_eq!(split_var_name_value("# service config"), None);
    assert_eq!(split_var_name_value("#KEY=value"), None);
    assert_eq!(split_var_name_value("   # KEY=value"), None);
    assert_eq!(split_var_name_value("#"), None);
}

#[test]
fn hash_sign_inside_a_line_is_no_comment() {
    assert_eq!(split_var_name_value("KEY=value # note"), pair("KEY", "value # note"));
    assert_eq!(split_var_name_value("K#Y=v"), pair("K#Y", "v"));
}

#[test]
fn line_without_equals_sign_assigns_nothing() {
    assert_eq!(split_var_name_value("KEY"), None);
    assert_eq!(split_var_name_value("export KEY value"), None);
}

#[test]
fn empty_name_assigns_nothing() {
    assert_eq!(split_var_name_value("=value"), None);
    assert_eq!(split_var_name_value("  =value"), None);
    assert_eq!(split_var_name_value(" = "), None);
    assert_eq!(split_var_name_value("="), None);
}

#[test]
fn names_may_hold_inner_whitespace() {
    assert_eq!(split_var_name_value("export KEY=value"), pair("export KEY", "value"));
}

#[test]
fn line_parser_agrees_with_std() {
    let alphabet: Vec<char> = vec![' ', '\t', '\r', '=', '#', 'a', 'B', '\u{a0}', '\u{e9}', '\u{2028}'];
    let mut state: u64 = 0x9e37_79b9_7f4a_7c15;
    for _ in 0..3000 {
        state = state.wrapping_mul(6364136223846793005).wrapping_add(1442695040888963407);
        let len: usize = ((state >> 33) as usize) % 9;
        let mut line = String::new();
        for _ in 0..len {
            state = state.wrapping_mul(6364136223846793005).wrapping_add(1442695040888963407);
            line.push(alphabet[((state >> 33) as usize) % alphabet.len()]);
        }
        assert_eq!(split_var_name_value(&line), by_std(&line), "{:?}", line);
    }
}
