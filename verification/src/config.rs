//! The bookmark mapping: names to paths, with unique names, and the
//! location of its on-disk file.

use vstd::prelude::*;

verus! {

/// Name of the config file inside the user's home directory.
pub const CONFIG_FILE_NAME: &'static str = ".jumpto.json";

/// What can go wrong around the config store.
#[derive(Clone, Copy, Debug, PartialEq, Eq, Structural)]
pub enum ConfigError {
    /// The home directory could not be determined.
    Location,
    /// The config file exists but could not be read.
    Read,
    /// The config file's content is not a well-formed mapping.
    Parse,
    /// The config file could not be written.
    Write,
}

impl ConfigError {
    /// A short description of the error, for display by a caller.
    pub fn message(&self) -> (r: &'static str)
        ensures
            *self is Location ==> r@ == "Could not determine home directory"@,
            *self is Read ==> r@ == "Could not read the config file"@,
            *self is Parse ==> r@ == "Could not parse the config file"@,
            *self is Write ==> r@ == "Could not write the config file"@,
    {
        match self {
            ConfigError::Location => "Could not determine home directory",
            ConfigError::Read => "Could not read the config file",
            ConfigError::Parse => "Could not parse the config file",
            ConfigError::Write => "Could not write the config file",
        }
    }
}

/// A mapping from bookmark names to filesystem paths.
///
/// Entries are kept in insertion order and names are unique; the
/// abstract value (the view) is the finite map the entries denote.
pub struct Config {
    directories: Vec<(String, String)>,
}

/// The mapping denoted by a sequence of (name, path) entries: a later
/// entry for the same name wins.
pub open spec fn map_of(entries: Seq<(Seq<char>, Seq<char>)>) -> Map<Seq<char>, Seq<char>>
    decreases entries.len(),
{
    if entries.len() == 0 {
        Map::empty()
    } else {
        map_of(entries.drop_last()).insert(entries.last().0, entries.last().1)
    }
}

/// No two entries of `entries` share a name.
pub open spec fn unique_names(entries: Seq<(Seq<char>, Seq<char>)>) -> bool {
    forall|i: int, j: int|
        0 <= i < j < entries.len() ==> (#[trigger] entries[i]).0 != (#[trigger] entries[j]).0
}

/// The domain of `map_of` is exactly the set of names that occur.
pub proof fn lemma_map_of_contains(entries: Seq<(Seq<char>, Seq<char>)>, k: Seq<char>)
    ensures
        map_of(entries).contains_key(k) <==> exists|i: int|
            0 <= i < entries.len() && (#[trigger] entries[i]).0 == k,
    decreases entries.len(),
{
    if entries.len() > 0 {
        lemma_map_of_contains(entries.drop_last(), k);
        if entries.last().0 == k {
            assert(entries[entries.len() - 1].0 == k);
        } else if map_of(entries).contains_key(k) {
            let i = choose|i: int|
                0 <= i < entries.drop_last().len() && (#[trigger] entries.drop_last()[i]).0 == k;
            assert(entries[i].0 == k);
        } else {
            assert forall|i: int|
                0 <= i < entries.len() && (#[trigger] entries[i]).0 == k implies false by {
                if i < entries.len() - 1 {
                    assert(entries.drop_last()[i].0 == k);
                }
            }
        }
    }
}

/// With unique names, `map_of` maps each occurring name to its entry's path.
pub proof fn lemma_map_of_index(entries: Seq<(Seq<char>, Seq<char>)>, i: int)
    requires
        unique_names(entries),
        0 <= i < entries.len(),
    ensures
        map_of(entries).contains_key(entries[i].0),
        map_of(entries)[entries[i].0] == entries[i].1,
    decreases entries.len(),
{
    lemma_map_of_contains(entries, entries[i].0);
    if i < entries.len() - 1 {
        assert(entries.drop_last()[i] == entries[i]);
        lemma_map_of_index(entries.drop_last(), i);
        assert(entries[i].0 != entries.last().0);
    }
}

/// Updating the path of entry `i` in place updates the mapping at that name.
pub proof fn lemma_map_of_update(entries: Seq<(Seq<char>, Seq<char>)>, i: int, e: (Seq<char>, Seq<char>))
    requires
        unique_names(entries),
        0 <= i < entries.len(),
        e.0 == entries[i].0,
    ensures
        map_of(entries.update(i, e)) =~= map_of(entries).insert(e.0, e.1),
    decreases entries.len(),
{
    let upd = entries.update(i, e);
    if i == entries.len() - 1 {
        assert(upd.drop_last() =~= entries.drop_last());
        assert(upd.last() == e);
    } else {
        assert(upd.drop_last() =~= entries.drop_last().update(i, e));
        assert(entries.drop_last()[i] == entries[i]);
        lemma_map_of_update(entries.drop_last(), i, e);
        assert(upd.last() == entries.last());
        assert(e.0 != entries.last().0);
    }
}

/// Removing entry `i` removes its name from the mapping (names unique).
pub proof fn lemma_map_of_remove(entries: Seq<(Seq<char>, Seq<char>)>, i: int)
    requires
        unique_names(entries),
        0 <= i < entries.len(),
    ensures
        map_of(entries.remove(i)) =~= map_of(entries).remove(entries[i].0),
    decreases entries.len(),
{
    let rem = entries.remove(i);
    if i == entries.len() - 1 {
        assert(rem =~= entries.drop_last());
        lemma_map_of_contains(entries.drop_last(), entries[i].0);
        assert forall|j: int|
            0 <= j < entries.drop_last().len() implies (#[trigger] entries.drop_last()[j]).0
            != entries[i].0 by {
            assert(entries[j] == entries.drop_last()[j]);
        }
        assert(!map_of(entries.drop_last()).contains_key(entries[i].0));
    } else {
        assert(rem.drop_last() =~= entries.drop_last().remove(i));
        assert(entries.drop_last()[i] == entries[i]);
        lemma_map_of_remove(entries.drop_last(), i);
        assert(rem.last() == entries.last());
        assert(entries[i].0 != entries.last().0);
    }
}

/// Appending an entry inserts its pair into the mapping.
pub proof fn lemma_map_of_push(entries: Seq<(Seq<char>, Seq<char>)>, e: (Seq<char>, Seq<char>))
    ensures
        map_of(entries.push(e)) =~= map_of(entries).insert(e.0, e.1),
{
    assert(entries.push(e).drop_last() =~= entries);
    assert(entries.push(e).last() == e);
}

/// With unique names, the mapping has exactly one name per entry.
pub proof fn lemma_map_of_card(entries: Seq<(Seq<char>, Seq<char>)>)
    requires
        unique_names(entries),
    ensures
        map_of(entries).dom().finite(),
        map_of(entries).dom().len() == entries.len(),
    decreases entries.len(),
{
    if entries.len() > 0 {
        assert forall|i: int, j: int|
            0 <= i < j < entries.drop_last().len() implies (
        #[trigger] entries.drop_last()[i]).0 != (#[trigger] entries.drop_last()[j]).0 by {
            assert(entries[i].0 != entries[j].0);
        }
        lemma_map_of_card(entries.drop_last());
        lemma_map_of_contains(entries.drop_last(), entries.last().0);
        assert forall|j: int|
            0 <= j < entries.drop_last().len() implies (#[trigger] entries.drop_last()[j]).0
            != entries.last().0 by {
            assert(entries[j].0 != entries[entries.len() - 1].0);
        }
        assert(!map_of(entries.drop_last()).contains_key(entries.last().0));
    }
}

/// The mapping of an entry list is empty exactly when the list is.
pub proof fn lemma_map_of_empty(entries: Seq<(Seq<char>, Seq<char>)>)
    ensures
        entries.len() == 0 <==> map_of(entries) =~= Map::<Seq<char>, Seq<char>>::empty(),
{
    if entries.len() > 0 {
        lemma_map_of_contains(entries, entries.last().0);
        assert(map_of(entries).contains_key(entries[entries.len() - 1].0));
    }
}

impl View for Config {
    type V = Map<Seq<char>, Seq<char>>;

    closed spec fn view(&self) -> Map<Seq<char>, Seq<char>> {
        map_of(self.entries())
    }
}

impl Config {
    /// The entries in storage order, as sequences of characters.
    pub closed spec fn entries(&self) -> Seq<(Seq<char>, Seq<char>)> {
        self.directories@.map_values(|e: (String, String)| (e.0@, e.1@))
    }

    /// Well-formed: no two entries share a name.
    pub open spec fn wf(&self) -> bool {
        unique_names(self.entries())
    }

    /// The view is the mapping that the entry list denotes: the public
    /// link between what the commands say of the mapping and what
    /// listing says of the rows.
    pub proof fn lemma_view_is_map_of_entries(&self)
        ensures
            self@ == map_of(self.entries()),
    {
    }

    /// An empty mapping.
    pub fn new() -> (c: Config)
        ensures
            c.wf(),
            c@ == Map::<Seq<char>, Seq<char>>::empty(),
            c.entries() =~= Seq::<(Seq<char>, Seq<char>)>::empty(),
    {
        Config { directories: Vec::new() }
    }

    /// How many names are stored.
    pub fn len(&self) -> (n: usize)
        ensures
            n == self.entries().len(),
            self.wf() ==> n == self@.dom().len(),
    {
        proof {
            if self.wf() {
                lemma_map_of_card(self.entries());
            }
        }
        self.directories.len()
    }

    /// Whether no names are stored.
    pub fn is_empty(&self) -> (b: bool)
        ensures
            b <==> self.entries().len() == 0,
            b <==> self@ =~= Map::<Seq<char>, Seq<char>>::empty(),
    {
        proof {
            lemma_map_of_empty(self.entries());
        }
        self.directories.len() == 0
    }

    /// The index of the entry named `name`, if any.
    fn index_of(&self, name: &str) -> (r: Option<usize>)
        ensures
            match r {
                Some(i) => i < self.entries().len() && self.entries()[i as int].0 == name@,
                None => forall|i: int|
                    0 <= i < self.entries().len() ==> (#[trigger] self.entries()[i]).0 != name@,
            },
    {
        let key: String = name.to_owned();
        let n = self.directories.len();
        let mut i: usize = 0;
        while i < n
            invariant
                n == self.directories@.len(),
                i <= n,
                key@ == name@,
                forall|j: int|
                    0 <= j < i ==> (#[trigger] self.directories@[j]).0@ != name@,
            decreases n - i,
        {
            if self.directories[i].0 == key {
                return Some(i);
            }
            i = i + 1;
        }
        None
    }

    /// Whether `name` is stored.
    pub fn contains_key(&self, name: &str) -> (b: bool)
        ensures
            b == self@.contains_key(name@),
    {
        proof {
            lemma_map_of_contains(self.entries(), name@);
        }
        self.index_of(name).is_some()
    }

    /// The path stored under `name`, if any.
    pub fn get(&self, name: &str) -> (r: Option<&String>)
        requires
            self.wf(),
        ensures
            match r {
                Some(p) => self@.contains_key(name@) && p@ == self@[name@],
                None => !self@.contains_key(name@),
            },
    {
        proof {
            lemma_map_of_contains(self.entries(), name@);
        }
        match self.index_of(name) {
            Some(i) => {
                proof {
                    lemma_map_of_index(self.entries(), i as int);
                }
                Some(&self.directories[i].1)
            },
            None => None,
        }
    }

    /// Store `path` under `name`, overwriting any previous path.
    /// Returns whether a previous path was overwritten.
    pub fn insert(&mut self, name: &str, path: String) -> (overwrote: bool)
        requires
            old(self).wf(),
        ensures
            final(self).wf(),
            final(self)@ =~= old(self)@.insert(name@, path@),
            overwrote == old(self)@.contains_key(name@),
            !overwrote ==> final(self).entries() =~= old(self).entries().push((name@, path@)),
    {
        proof {
            lemma_map_of_contains(self.entries(), name@);
        }
        let key: String = name.to_owned();
        match self.index_of(name) {
            Some(i) => {
                proof {
                    lemma_map_of_update(self.entries(), i as int, (name@, path@));
                }
                self.directories.set(i, (key, path));
                proof {
                    assert(self.entries() =~= old(self).entries().update(
                        i as int,
                        (name@, path@),
                    ));
                    assert forall|a: int, b: int|
                        0 <= a < b < self.entries().len() implies (
                    #[trigger] self.entries()[a]).0 != (#[trigger] self.entries()[b]).0 by {
                        assert(old(self).entries()[a].0 != old(self).entries()[b].0);
                    }
                }
                true
            },
            None => {
                proof {
                    lemma_map_of_push(self.entries(), (name@, path@));
                }
                self.directories.push((key, path));
                proof {
                    assert(self.entries() =~= old(self).entries().push((name@, path@)));
                    assert forall|a: int, b: int|
                        0 <= a < b < self.entries().len() implies (
                    #[trigger] self.entries()[a]).0 != (#[trigger] self.entries()[b]).0 by {
                        if b < self.entries().len() - 1 {
                            assert(old(self).entries()[a].0 != old(self).entries()[b].0);
                        } else {
                            assert(old(self).entries()[a].0 != name@);
                        }
                    }
                }
                false
            },
        }
    }

    /// Remove `name` from the mapping.  Returns whether it was present;
    /// if it was not, the mapping is unchanged.
    pub fn remove(&mut self, name: &str) -> (was_present: bool)
        requires
            old(self).wf(),
        ensures
            final(self).wf(),
            was_present == old(self)@.contains_key(name@),
            was_present ==> final(self)@ =~= old(self)@.remove(name@),
            !was_present ==> *final(self) == *old(self),
    {
        proof {
            lemma_map_of_contains(self.entries(), name@);
        }
        match self.index_of(name) {
            Some(i) => {
                proof {
                    lemma_map_of_remove(self.entries(), i as int);
                }
                self.directories.remove(i);
                proof {
                    assert(self.entries() =~= old(self).entries().remove(i as int));
                    assert forall|a: int, b: int|
                        0 <= a < b < self.entries().len() implies (
                    #[trigger] self.entries()[a]).0 != (#[trigger] self.entries()[b]).0 by {
                        let a0: int = if a < i as int {
                            a
                        } else {
                            a + 1
                        };
                        let b0: int = if b < i as int {
                            b
                        } else {
                            b + 1
                        };
                        assert(old(self).entries()[a0].0 != old(self).entries()[b0].0);
                    }
                }
                true
            },
            None => false,
        }
    }

    /// The stored (name, path) rows, in storage order.
    pub fn rows(&self) -> (r: Vec<(String, String)>)
        ensures
            r@.map_values(|e: (String, String)| (e.0@, e.1@)) =~= self.entries(),
    {
        let n = self.directories.len();
        let mut out: Vec<(String, String)> = Vec::new();
        let mut i: usize = 0;
        while i < n
            invariant
                n == self.directories@.len(),
                i <= n,
                out@.len() == i,
                forall|j: int|
                    0 <= j < i ==> (#[trigger] out@[j]).0@ == self.directories@[j].0@
                        && out@[j].1@ == self.directories@[j].1@,
            decreases n - i,
        {
            let name = self.directories[i].0.clone();
            let path = self.directories[i].1.clone();
            out.push((name, path));
            i = i + 1;
        }
        out
    }
}

/// Relies on home::home_dir: the user's home directory as the process
/// environment reports it, or None when it cannot be determined.  Nothing
/// further is promised of the result (it depends on the environment; it
/// may even be an empty path, as home's documentation notes).
#[verifier::external_body]
fn home_dir_string() -> Option<String> {
    home::home_dir().map(|p| p.display().to_string())
}

/// The config file path for a given home directory: the directory with
/// a separator and `CONFIG_FILE_NAME` appended.
pub fn join_config_name(home: String) -> (r: String)
    ensures
        r@ == home@ + "/.jumpto.json"@,
{
    home.concat("/.jumpto.json")
}

/// The path of the on-disk config file: `join_config_name` of the home
/// directory that the environment reports.  Fails when the home
/// directory cannot be determined.  (What is returned for each home
/// value is pinned by `join_config_name`; which home value the
/// environment yields cannot be.)
pub fn path_to_file() -> (r: Result<String, ConfigError>)
    ensures
        r is Err ==> r == Err::<String, ConfigError>(ConfigError::Location),
        r is Ok ==> r->Ok_0@.len() >= 13 && r->Ok_0@.subrange(
            r->Ok_0@.len() - 13,
            r->Ok_0@.len() as int,
        ) =~= "/.jumpto.json"@,
{
    match home_dir_string() {
        None => Err(ConfigError::Location),
        Some(h) => {
            proof {
                reveal_strlit("/.jumpto.json");
            }
            let p = join_config_name(h);
            proof {
                assert(p@.subrange(p@.len() - 13, p@.len() as int) =~= "/.jumpto.json"@);
            }
            Ok(p)
        },
    }
}

} // verus!
