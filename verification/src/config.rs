//! The path classifier: which files are configuration files, and which
//! directories the walk leaves out.
use crate::text::{ends_with, is_suffix, to_chars, views};
use crate::walk::TraversalNode;
use vstd::prelude::*;

verus! {

/// The settings of a run: the suffixes by which a file counts as a
/// configuration file, and the names of the directories to leave out.
#[derive(Debug)]
pub struct Configuration {
    config_files: Vec<String>,
    ignored_directories: Vec<String>,
}

/// A `Configuration` with its two lists as character sequences.
pub struct Settings {
    /// The suffixes of the configuration files' names, in their order.
    pub suffixes: Seq<Seq<char>>,
    /// The names of the ignored directories, in their order.
    pub ignored_names: Seq<Seq<char>>,
}

impl Settings {
    /// Whether a directory named `name` is left out: `name` is one of the
    /// ignored names, letter for letter.
    pub open spec fn ignores(self, name: Seq<char>) -> bool {
        self.ignored_names.contains(name)
    }

    /// Whether `file_name` ends with one of the suffixes.
    pub open spec fn has_suffix(self, file_name: Seq<char>) -> bool {
        exists|i: int| 0 <= i < self.suffixes.len() && is_suffix(#[trigger] self.suffixes[i], file_name)
    }

    /// Whether an entry with the name `name` counts as a configuration file:
    /// it has a name, and the name ends with one of the suffixes.
    pub open spec fn selects(self, name: Option<Seq<char>>) -> bool {
        match name {
            Some(file_name) => self.has_suffix(file_name),
            None => false,
        }
    }
}

impl View for Configuration {
    type V = Settings;

    closed spec fn view(&self) -> Settings {
        Settings {
            suffixes: views(self.config_files@),
            ignored_names: views(self.ignored_directories@),
        }
    }
}

impl Configuration {
    /// The settings with these suffixes and these ignored names.
    pub fn new(config_files: Vec<String>, ignored_directories: Vec<String>) -> (config: Self)
        ensures
            config@.suffixes == views(config_files@),
            config@.ignored_names == views(ignored_directories@),
    {
        Configuration { config_files, ignored_directories }
    }

    /// The suffixes of the configuration files' names.
    pub fn config_files(&self) -> (suffixes: &[String])
        ensures
            views(suffixes@) == self@.suffixes,
    {
        self.config_files.as_slice()
    }

    /// The names of the ignored directories.
    pub fn ignored_directories(&self) -> (names: &[String])
        ensures
            views(names@) == self@.ignored_names,
    {
        self.ignored_directories.as_slice()
    }

    /// Whether `node` counts as a configuration file: it has a name, and the
    /// name ends with one of the suffixes.
    pub fn is_config_file(&self, node: &TraversalNode) -> (b: bool)
        ensures
            b == self@.selects(node@.name),
    {
        match &node.name {
            Some(file_name) => self.has_config_suffix(file_name.as_str()),
            None => false,
        }
    }

    /// Whether `file_name` ends with one of the suffixes.
    fn has_config_suffix(&self, file_name: &str) -> (b: bool)
        ensures
            b == self@.has_suffix(file_name@),
    {
        let name = to_chars(file_name);
        let mut i: usize = 0;
        while i < self.config_files.len()
            invariant
                0 <= i <= self.config_files.len(),
                name@ == file_name@,
                forall|j: int| 0 <= j < i ==> !is_suffix(#[trigger] self@.suffixes[j], name@),
            decreases self.config_files.len() - i,
        {
            let suffix = to_chars(self.config_files[i].as_str());
            if ends_with(&name, &suffix) {
                assert(is_suffix(self@.suffixes[i as int], name@));
                return true;
            }
            i += 1;
        }
        false
    }

    /// Whether a directory named `dir_name` is left out of the walk:
    /// `dir_name` is one of the ignored names, letter for letter.
    pub fn is_ignored(&self, dir_name: &str) -> (b: bool)
        ensures
            b == self@.ignores(dir_name@),
    {
        let name = dir_name.to_owned();
        let mut i: usize = 0;
        while i < self.ignored_directories.len()
            invariant
                0 <= i <= self.ignored_directories.len(),
                name@ == dir_name@,
                forall|j: int| 0 <= j < i ==> #[trigger] self@.ignored_names[j] != name@,
            decreases self.ignored_directories.len() - i,
        {
            if self.ignored_directories[i] == name {
                assert(self@.ignored_names[i as int] == name@);
                return true;
            }
            i += 1;
        }
        false
    }
}

} // verus!
