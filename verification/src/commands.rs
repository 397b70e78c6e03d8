//! The list, add, remove and jump operations on the in-memory mapping.
//!
//! Each operation returns what the caller should show the user; nothing
//! here touches the disk, so a caller persists the mapping afterwards.

use vstd::prelude::*;

use crate::config::Config;
use crate::config::map_of;
use crate::config::unique_names;
use crate::config::lemma_map_of_contains;
use crate::config::lemma_map_of_index;

verus! {

/// What listing the mapping yields.
pub enum ListOutcome {
    /// Nothing stored: a hint and a usage line to show instead of a table.
    Empty { hint: String, usage: String },
    /// The stored (name, path) rows, one table row each.
    Table { rows: Vec<(String, String)> },
}

/// The outcome of storing a name.
pub struct AddOutcome {
    /// Whether a previously stored path was overwritten (worth a warning).
    pub overwrote: bool,
    /// The confirmation to show.
    pub message: String,
}

/// The outcome of removing a name.
pub enum RemoveOutcome {
    /// The name was stored and its entry is gone.
    Removed { message: String },
    /// The name was not stored; the mapping is unchanged.
    NotFound { message: String },
}

/// The outcome of a jump lookup.
pub enum JumpOutcome {
    /// The name is stored: the path to hand to the shell wrapper.
    Found { path: String, message: String },
    /// The name is not stored.
    Unknown { message: String, hint: String },
}

/// List the stored directories: a hint when nothing is stored, otherwise
/// one row per entry, in storage order.
pub fn command_list(config: &Config) -> (r: ListOutcome)
    ensures
        match r {
            ListOutcome::Empty { hint, usage } => config.entries().len() == 0 && hint@
                == "No directories saved!"@ && usage@
                == "Use 'jumpto add <reference name> <path>' to add one"@,
            ListOutcome::Table { rows } => config.entries().len() > 0 && rows@.map_values(
                |e: (String, String)| (e.0@, e.1@),
            ) =~= config.entries(),
        },
{
    if config.is_empty() {
        ListOutcome::Empty {
            hint: String::from_str("No directories saved!"),
            usage: String::from_str("Use 'jumpto add <reference name> <path>' to add one"),
        }
    } else {
        ListOutcome::Table { rows: config.rows() }
    }
}

/// Store `path` under `name`, overwriting any previous path for it.
/// The caller shows a warning when `overwrote` holds, then the message.
pub fn command_add(config: &mut Config, name: &str, path: String) -> (r: AddOutcome)
    requires
        old(config).wf(),
    ensures
        final(config).wf(),
        final(config)@ =~= old(config)@.insert(name@, path@),
        r.overwrote == old(config)@.contains_key(name@),
        r.message@ == "Added new entry under '"@ + name@ + "'"@,
{
    let overwrote = config.insert(name, path);
    let message = String::from_str("Added new entry under '").concat(name).concat("'");
    AddOutcome { overwrote, message }
}

/// Remove `name` from the mapping.  When it is not stored, the mapping is
/// left unchanged and the outcome reports the error.
pub fn command_remove(config: &mut Config, name: &str) -> (r: RemoveOutcome)
    requires
        old(config).wf(),
    ensures
        final(config).wf(),
        match r {
            RemoveOutcome::Removed { message } => old(config)@.contains_key(name@)
                && final(config)@ =~= old(config)@.remove(name@)
                && message@ == "Key '"@ + name@ + "' removed"@,
            RemoveOutcome::NotFound { message } => !old(config)@.contains_key(name@)
                && *final(config) == *old(config)
                && message@ == "Did not find '"@ + name@ + "' in the config"@,
        },
{
    if config.remove(name) {
        RemoveOutcome::Removed {
            message: String::from_str("Key '").concat(name).concat("' removed"),
        }
    } else {
        RemoveOutcome::NotFound {
            message: String::from_str("Did not find '").concat(name).concat("' in the config"),
        }
    }
}

/// Resolve `name` to its stored path for the caller to act on.  The
/// mapping itself is never changed by a lookup.
pub fn jump_lookup(config: &Config, name: &str) -> (r: JumpOutcome)
    requires
        config.wf(),
    ensures
        match r {
            JumpOutcome::Found { path, message } => config@.contains_key(name@) && path@
                == config@[name@] && message@ == "Jumping to "@ + path@,
            JumpOutcome::Unknown { message, hint } => !config@.contains_key(name@) && message@
                == "Unknown jump name '"@ + name@ + "'"@ && hint@
                == "You can see the paths you have saved with 'jumpto list'"@,
        },
{
    match config.get(name) {
        Some(p) => {
            let path = p.clone();
            let message = String::from_str("Jumping to ").concat(path.as_str());
            JumpOutcome::Found { path, message }
        },
        None => JumpOutcome::Unknown {
            message: String::from_str("Unknown jump name '").concat(name).concat("'"),
            hint: String::from_str("You can see the paths you have saved with 'jumpto list'"),
        },
    }
}

/// Law: after storing (name, path), the listing includes that pair.
///
/// `es2` is the entry list after the add (so its mapping is the old
/// mapping with (name, path) inserted, and its names are unique, as
/// `command_add` ensures); the rows that `command_list` returns are
/// exactly such an entry list.
pub proof fn lemma_add_then_list_includes(
    m: Map<Seq<char>, Seq<char>>,
    es2: Seq<(Seq<char>, Seq<char>)>,
    name: Seq<char>,
    path: Seq<char>,
)
    requires
        unique_names(es2),
        map_of(es2) =~= m.insert(name, path),
    ensures
        exists|i: int| 0 <= i < es2.len() && #[trigger] es2[i] == (name, path),
{
    assert(map_of(es2).contains_key(name));
    lemma_map_of_contains(es2, name);
    let i = choose|i: int| 0 <= i < es2.len() && (#[trigger] es2[i]).0 == name;
    lemma_map_of_index(es2, i);
    assert(es2[i].1 == path);
    assert(es2[i] == (es2[i].0, es2[i].1));
}

/// Law: storing a name twice keeps exactly one entry for it, holding the
/// second path.
///
/// The mapping after the two adds equals the mapping after the second
/// alone, and an entry list denoting it (with unique names, as the adds
/// ensure) has one single entry for the name, holding `p2`.
pub proof fn lemma_add_twice_overwrites(
    m: Map<Seq<char>, Seq<char>>,
    es2: Seq<(Seq<char>, Seq<char>)>,
    name: Seq<char>,
    p1: Seq<char>,
    p2: Seq<char>,
)
    requires
        unique_names(es2),
        map_of(es2) =~= m.insert(name, p1).insert(name, p2),
    ensures
        m.insert(name, p1).insert(name, p2) =~= m.insert(name, p2),
        exists|i: int| 0 <= i < es2.len() && #[trigger] es2[i] == (name, p2),
        forall|i: int, j: int|
            0 <= i < es2.len() && 0 <= j < es2.len() && (#[trigger] es2[i]).0 == name && (
            #[trigger] es2[j]).0 == name ==> i == j,
{
    assert(map_of(es2).contains_key(name));
    lemma_map_of_contains(es2, name);
    let i = choose|i: int| 0 <= i < es2.len() && (#[trigger] es2[i]).0 == name;
    lemma_map_of_index(es2, i);
    assert(es2[i].1 == p2);
    assert(es2[i] == (es2[i].0, es2[i].1));
}

/// Law: removing a name that is not stored leaves the mapping unchanged
/// (and `command_remove` reports the error in that case).
pub proof fn lemma_remove_absent_is_noop(m: Map<Seq<char>, Seq<char>>, name: Seq<char>)
    requires
        !m.contains_key(name),
    ensures
        m.remove(name) =~= m,
{
}

/// Law: after removing a name, the listing never includes it.
///
/// `es2` is the entry list after the remove (so its mapping is the old
/// mapping with the name removed, as `command_remove` ensures): no row
/// carries that name.
pub proof fn lemma_remove_then_list_excludes(
    m: Map<Seq<char>, Seq<char>>,
    es2: Seq<(Seq<char>, Seq<char>)>,
    name: Seq<char>,
)
    requires
        map_of(es2) =~= m.remove(name),
    ensures
        forall|i: int| 0 <= i < es2.len() ==> (#[trigger] es2[i]).0 != name,
{
    assert(!map_of(es2).contains_key(name));
    lemma_map_of_contains(es2, name);
}

} // verus!
