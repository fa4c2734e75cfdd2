use masterenv::lines::split_lines;
use masterenv::{get_line_expected, synchronize, FileRewrite, MasterTable};

fn master() -> MasterTable {
    MasterTable::from_text("API_URL=https://prod.example.com\nDEBUG=false\nEMPTY=\n")
}

fn rewritten(content: &str, changed_lines: usize) -> FileRewrite {
    FileRewrite::Rewritten { content: String::from(content), changed_lines }
}

/// The content of a file after its synchronisation.
fn after(content: &str, table: &MasterTable) -> String {
    match synchronize(content, table) {
        FileRewrite::Unchanged => String::from(content),
        FileRewrite::Rewritten { content: new_content, .. } => new_content,
    }
}

#[test]
fn service_config_is_brought_in_line() {
    let table = MasterTable::from_text("API_URL=https://prod.example.com\nDEBUG=false");
    let file = "# service config\nAPI_URL=http://localhost:8080\nDEBUG=true\nTIMEOUT=30";
    assert_eq!(
        synchronize(file, &table),
        rewritten("# service config\nAPI_URL=https://prod.example.com\nDEBUG=false\nTIMEOUT=30", 2)
    );
}

#[test]
fn line_of_a_master_name_gets_the_master_value() {
    let table = master();
    assert_eq!(get_line_expected("DEBUG=true", &table), "DEBUG=false");
    assert_eq!(get_line_expected("API_URL=x", &table), "API_URL=https://prod.example.com");
    assert_eq!(get_line_expected("EMPTY=something", &table), "EMPTY=");
}

#[test]
fn rewritten_line_loses_its_whitespace() {
    let table = master();
    assert_eq!(get_line_expected("  DEBUG =   true  ", &table), "DEBUG=false");
    assert_eq!(get_line_expected("\tDEBUG=false", &table), "DEBUG=false");
    assert_eq!(get_line_expected("DEBUG = false", &table), "DEBUG=false");
    assert_eq!(get_line_expected("DEBUG=", &table), "DEBUG=false");
}

#[test]
fn line_of_another_name_is_kept_to_the_letter() {
    let table = master();
    assert_eq!(get_line_expected("TIMEOUT=30", &table), "TIMEOUT=30");
    assert_eq!(get_line_expected("  TIMEOUT =  30  ", &table), "  TIMEOUT =  30  ");
    assert_eq!(get_line_expected("debug=true", &table), "debug=true");
    assert_eq!(get_line_expected("DEBUG2=true", &table), "DEBUG2=true");
}

#[test]
fn comments_and_blank_lines_are_kept_to_the_letter() {
    let table = master();
    assert_eq!(get_line_expected("", &table), "");
    assert_eq!(get_line_expected("   ", &table), "   ");
    assert_eq!(get_line_expected("# DEBUG=true", &table), "# DEBUG=true");
    assert_eq!(get_line_expected("  #DEBUG=true  ", &table), "  #DEBUG=true  ");
    assert_eq!(get_line_expected("DEBUG", &table), "DEBUG");
    assert_eq!(get_line_expected("=true", &table), "=true");
}

#[test]
fn file_in_line_with_the_master_is_left_alone() {
    let table = master();
    assert_eq!(synchronize("", &table), FileRewrite::Unchanged);
    assert_eq!(synchronize("# nothing here\n\nTIMEOUT=30\n", &table), FileRewrite::Unchanged);
    assert_eq!(synchronize("DEBUG=false\nAPI_URL=https://prod.example.com\n", &table), FileRewrite::Unchanged);
    assert_eq!(synchronize("DEBUG=false\r\nTIMEOUT=30\r\n", &table), FileRewrite::Unchanged);
}

#[test]
fn empty_master_changes_nothing() {
    let table = MasterTable::new();
    assert_eq!(synchronize("A = 1\nB=2\n# c\n", &table), FileRewrite::Unchanged);
}

#[test]
fn whitespace_alone_makes_a_line_change() {
    let table = master();
    assert_eq!(synchronize("DEBUG = false\n", &table), rewritten("DEBUG=false", 1));
}

#[test]
fn changed_lines_are_counted() {
    let table = master();
    let file = "DEBUG=1\nDEBUG=false\nAPI_URL=a\nX=1\nDEBUG=2\n";
    assert_eq!(
        synchronize(file, &table),
        rewritten("DEBUG=false\nDEBUG=false\nAPI_URL=https://prod.example.com\nX=1\nDEBUG=false", 3)
    );
}

#[test]
fn rewritten_file_is_joined_by_line_feeds() {
    let table = master();
    assert_eq!(synchronize("A=1\r\nDEBUG=true\r\nB=2\r\n", &table), rewritten("A=1\nDEBUG=false\nB=2", 1));
    assert_eq!(synchronize("DEBUG=true\n\n", &table), rewritten("DEBUG=false\n", 1));
}

#[test]
fn second_synchronisation_writes_nothing() {
    let table = master();
    let files = vec![
        "# service config\nAPI_URL=http://localhost:8080\nDEBUG=true\nTIMEOUT=30",
        "DEBUG = true\r\n\r\nA=1\r\r\n  # c\r\n",
        "DEBUG=true\n\n",
        "EMPTY=x\r\n=y\nDEBUG\n",
        "\n\nDEBUG=0",
        "TIMEOUT=30\n",
        "",
    ];
    for file in files {
        let once = after(file, &table);
        assert_eq!(synchronize(&once, &table), FileRewrite::Unchanged, "{:?}", file);
        assert_eq!(after(&once, &table), once, "{:?}", file);
    }
}

#[test]
fn number_of_lines_is_kept() {
    let table = master();
    let files = vec![
        "# service config\nAPI_URL=http://localhost:8080\nDEBUG=true\nTIMEOUT=30",
        "DEBUG = true\r\n\r\nA=1\r\n  # c\r\n",
        "\n\nDEBUG=0",
        "DEBUG=1\nDEBUG=2\nDEBUG=3\n",
    ];
    for file in files {
        let once = after(file, &table);
        assert_ne!(once, file);
        assert_eq!(split_lines(&once).len(), split_lines(file).len(), "{:?}", file);
    }
}

#[test]
fn empty_last_line_is_not_written() {
    let table = master();
    assert_eq!(split_lines("DEBUG=true\n\n").len(), 2);
    assert_eq!(split_lines(&after("DEBUG=true\n\n", &table)).len(), 1);
}

#[test]
fn lines_are_rewritten_one_by_one() {
    let table = master();
    let file = "# c\n  DEBUG = yes\n\nTIMEOUT = 30 \nnot an assignment\nAPI_URL=\n=x";
    let old_lines = split_lines(file);
    let new_lines = split_lines(&after(file, &table));
    assert_eq!(new_lines.len(), old_lines.len());
    for i in 0..old_lines.len() {
        assert_eq!(new_lines[i], get_line_expected(&old_lines[i], &table));
    }
    assert_eq!(new_lines[0], old_lines[0]);
    assert_eq!(new_lines[1], "DEBUG=false");
    assert_eq!(new_lines[2], old_lines[2]);
    assert_eq!(new_lines[3], old_lines[3]);
    assert_eq!(new_lines[4], old_lines[4]);
    assert_eq!(new_lines[5], "API_URL=https://prod.example.com");
    assert_eq!(new_lines[6], old_lines[6]);
}

#[test]
fn later_master_value_is_the_one_written() {
    let table = MasterTable::from_text("A=1\nA=2\n");
    assert_eq!(synchronize("A=1\n", &table), rewritten("A=2", 1));
    assert_eq!(synchronize("A=2\n", &table), FileRewrite::Unchanged);
}
