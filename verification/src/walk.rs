//! The tree walker's decisions: what is to be done with one entry of a
//! directory.
use crate::config::{Configuration, Settings};
use vstd::prelude::*;

verus! {

/// One entry of a directory, as far as the walk looks at it.
#[derive(Debug)]
pub struct TraversalNode {
    /// The last component of the entry's path, if it has one that is text.
    pub name: Option<String>,
    /// Whether the entry is a directory.
    pub is_dir: bool,
}

/// A `TraversalNode` with its name as a character sequence.
pub struct NodeView {
    pub name: Option<Seq<char>>,
    pub is_dir: bool,
}

impl View for TraversalNode {
    type V = NodeView;

    open spec fn view(&self) -> NodeView {
        NodeView {
            name: match self.name {
                Some(name) => Some(name@),
                None => None,
            },
            is_dir: self.is_dir,
        }
    }
}

impl NodeView {
    /// The name of the entry, empty if it has none.
    pub open spec fn file_name(self) -> Seq<char> {
        match self.name {
            Some(name) => name,
            None => Seq::empty(),
        }
    }
}

/// What the walk does with one entry of a directory.
#[derive(Debug, Clone, Copy, PartialEq, Eq)]
pub enum EntryAction {
    /// A directory to walk through in its turn.
    Descend,
    /// A directory to leave out with all that is in it.
    Prune,
    /// A file to synchronise with the master table.
    Synchronize,
    /// A file to pass over.
    Skip,
}

/// What the walk does with `node` under `settings`. A directory is left out if
/// its name is one of the ignored names, and walked through if not. Anything
/// else is synchronised if its name ends with one of the configuration
/// files' suffixes, and passed over if not.
pub open spec fn action_of(settings: Settings, node: NodeView) -> EntryAction {
    if node.is_dir {
        if settings.ignores(node.file_name()) {
            EntryAction::Prune
        } else {
            EntryAction::Descend
        }
    } else if settings.selects(node.name) {
        EntryAction::Synchronize
    } else {
        EntryAction::Skip
    }
}

/// A directory with an ignored name is left out, whatever the suffixes of the
/// configuration files are and whether or not its own name ends with one of
/// them. Only a directory whose name is not ignored is walked through, and
/// only what is no directory and has one of the suffixes is synchronised. A
/// walk that enters nothing but what is answered with `Descend` thus comes to
/// no file below an ignored directory.
pub proof fn lemma_ignored_directory_pruned(settings: Settings, node: NodeView)
    ensures
        node.is_dir && settings.ignores(node.file_name()) ==> action_of(settings, node)
            == EntryAction::Prune,
        action_of(settings, node) == EntryAction::Descend ==> node.is_dir && !settings.ignores(
            node.file_name(),
        ),
        action_of(settings, node) == EntryAction::Synchronize ==> !node.is_dir
            && settings.selects(node.name),
{
}

/// The name of `node`, empty if it has none.
pub fn get_file_name(node: &TraversalNode) -> (name: &str)
    ensures
        name@ == node@.file_name(),
{
    match &node.name {
        Some(name) => name.as_str(),
        None => {
            proof {
                reveal_strlit("");
            }
            ""
        },
    }
}

/// What the walk does with `node` under `config`.
pub fn entry_action(config: &Configuration, node: &TraversalNode) -> (action: EntryAction)
    ensures
        action == action_of(config@, node@),
        node.is_dir && config@.ignores(node@.file_name()) ==> action == EntryAction::Prune,
        action == EntryAction::Synchronize ==> !node.is_dir,
{
    if node.is_dir {
        if config.is_ignored(get_file_name(node)) {
            EntryAction::Prune
        } else {
            EntryAction::Descend
        }
    } else if config.is_config_file(node) {
        EntryAction::Synchronize
    } else {
        EntryAction::Skip
    }
}

} // verus!
