//! User labels and the learned identities they belong to.

use vstd::prelude::*;
use vstd::string::*;

use crate::receiver::decision::StoredAppliance;
use crate::text::same_text;

verus! {

/// The names that users gave to devices, and what was learned of the devices.
pub struct DeviceLabels {
    /// Device ids and the names given to them.
    pub names: Vec<(String, String)>,
    pub appliances: Vec<StoredAppliance>,
}

/// Why a device was not renamed.
#[derive(Clone, Copy, Debug, PartialEq, Eq, Structural)]
pub enum RenameError {
    InvalidName,
    NotFound,
    Unavailable,
}

/// Names as plain texts.
pub open spec fn name_texts(names: Seq<(String, String)>) -> Seq<(Seq<char>, Seq<char>)> {
    names.map_values(|entry: (String, String)| (entry.0@, entry.1@))
}

/// The name given to a device, if there is one.
pub open spec fn name_given(names: Seq<(Seq<char>, Seq<char>)>, id: Seq<char>) -> Option<Seq<char>>
    decreases names.len(),
{
    if names.len() == 0 {
        None
    } else if names.last().0 == id {
        Some(names.last().1)
    } else {
        name_given(names.drop_last(), id)
    }
}

/// An entry under which one device is called otherwise.
pub open spec fn entry_renamed(
    entry: (Seq<char>, Seq<char>),
    id: Seq<char>,
    name: Seq<char>,
) -> (Seq<char>, Seq<char>) {
    if entry.0 == id {
        (entry.0, name)
    } else {
        entry
    }
}

/// Entries under which one device is called otherwise.
pub open spec fn entries_renamed(
    names: Seq<(Seq<char>, Seq<char>)>,
    id: Seq<char>,
    name: Seq<char>,
) -> Seq<(Seq<char>, Seq<char>)> {
    Seq::new(names.len(), |i: int| entry_renamed(names[i], id, name))
}

/// Names in which one device is called otherwise.
pub open spec fn renamed(
    names: Seq<(Seq<char>, Seq<char>)>,
    id: Seq<char>,
    name: Seq<char>,
) -> Seq<(Seq<char>, Seq<char>)> {
    if name_given(names, id) is Some {
        entries_renamed(names, id, name)
    } else {
        names.push((id, name))
    }
}

/// A device that was renamed has its new name, and no other device is called
/// otherwise than before.
pub proof fn lemma_renaming_affects_one_device(
    names: Seq<(Seq<char>, Seq<char>)>,
    id: Seq<char>,
    name: Seq<char>,
    other: Seq<char>,
)
    ensures
        name_given(renamed(names, id, name), other) == if other == id {
            Some(name)
        } else {
            name_given(names, other)
        },
{
    if name_given(names, id) is Some {
        lemma_entries_renamed(names, id, name, other);
    } else {
        assert(names.push((id, name)).drop_last() =~= names);
    }
}

proof fn lemma_entries_renamed(
    names: Seq<(Seq<char>, Seq<char>)>,
    id: Seq<char>,
    name: Seq<char>,
    other: Seq<char>,
)
    ensures
        name_given(entries_renamed(names, id, name), other) == if other == id && name_given(
            names,
            id,
        ) is Some {
            Some(name)
        } else {
            name_given(names, other)
        },
        name_given(names, id) is None ==> entries_renamed(names, id, name) == names,
    decreases names.len(),
{
    let replaced = entries_renamed(names, id, name);
    if names.len() > 0 {
        let fewer = names.drop_last();
        lemma_entries_renamed(fewer, id, name, other);
        assert(replaced.drop_last() =~= entries_renamed(fewer, id, name));
        assert(replaced.last() == entry_renamed(names.last(), id, name));
        if name_given(names, id) is None {
            assert(replaced =~= replaced.drop_last().push(replaced.last()));
            assert(names =~= fewer.push(names.last()));
        }
    } else {
        assert(replaced =~= names);
    }
}

impl Default for DeviceLabels {
    fn default() -> (labels: DeviceLabels)
        ensures
            labels.names@.len() == 0,
            labels.appliances@.len() == 0,
    {
        DeviceLabels { names: Vec::new(), appliances: Vec::new() }
    }
}

impl DeviceLabels {
    /// The name given to a device.
    pub fn name_of(&self, id: &str) -> (name: Option<&String>)
        ensures
            match name {
                Some(name) => name_given(name_texts(self.names@), id@) == Some(name@),
                None => name_given(name_texts(self.names@), id@) is None,
            },
    {
        let ghost all = name_texts(self.names@);
        let mut found: Option<&String> = None;
        let mut at: usize = 0;
        while at < self.names.len()
            invariant
                at <= self.names@.len(),
                all == name_texts(self.names@),
                match found {
                    Some(name) => name_given(all.take(at as int), id@) == Some(name@),
                    None => name_given(all.take(at as int), id@) is None,
                },
            decreases self.names@.len() - at,
        {
            assert(all.take(at + 1).drop_last() =~= all.take(at as int));
            assert(all.take(at + 1).last() == (self.names@[at as int].0@, self.names@[at as int].1@));
            if same_text(self.names[at].0.as_str(), id) {
                found = Some(&self.names[at].1);
            }
            at = at + 1;
        }
        assert(all.take(at as int) =~= all);
        found
    }

    /// The labels with one device called otherwise.
    pub fn with_name(&self, id: &str, name: &str) -> (labels: DeviceLabels)
        ensures
            name_texts(labels.names@) == renamed(name_texts(self.names@), id@, name@),
            labels.appliances@ == self.appliances@,
    {
        let ghost all = name_texts(self.names@);
        let known: bool = self.name_of(id).is_some();
        let mut names: Vec<(String, String)> = Vec::new();
        let mut at: usize = 0;
        assert(name_texts(names@) =~= entries_renamed(all.take(0), id@, name@));
        while at < self.names.len()
            invariant
                at <= self.names@.len(),
                all == name_texts(self.names@),
                name_texts(names@) == entries_renamed(all.take(at as int), id@, name@),
            decreases self.names@.len() - at,
        {
            let ghost before = names@;
            let entry: (String, String) = if same_text(self.names[at].0.as_str(), id) {
                (self.names[at].0.clone(), name.to_owned())
            } else {
                (self.names[at].0.clone(), self.names[at].1.clone())
            };
            names.push(entry);
            proof {
                let source = all[at as int];
                assert((entry.0@, entry.1@) == entry_renamed(source, id@, name@));
                assert(name_texts(names@) =~= name_texts(before).push((entry.0@, entry.1@)));
                assert(entries_renamed(all.take(at + 1), id@, name@) =~= entries_renamed(
                    all.take(at as int),
                    id@,
                    name@,
                ).push(entry_renamed(source, id@, name@)));
            }
            at = at + 1;
        }
        assert(all.take(at as int) =~= all);
        proof {
            if !known {
                lemma_entries_renamed(all, id@, name@, id@);
            }
        }
        if !known {
            let ghost before = names@;
            names.push((id.to_owned(), name.to_owned()));
            assert(name_texts(names@) =~= name_texts(before).push((id@, name@)));
        }
        let mut appliances: Vec<StoredAppliance> = Vec::new();
        let mut copied: usize = 0;
        while copied < self.appliances.len()
            invariant
                copied <= self.appliances@.len(),
                appliances@ == self.appliances@.take(copied as int),
            decreases self.appliances@.len() - copied,
        {
            appliances.push(self.appliances[copied]);
            copied = copied + 1;
            assert(self.appliances@.take(copied as int) =~= self.appliances@.take(
                copied - 1,
            ).push(self.appliances@[copied - 1]));
        }
        assert(self.appliances@.take(copied as int) =~= self.appliances@);
        DeviceLabels { names, appliances }
    }
}

/// The name of a device is the one given last under its id; where no entry has
/// the id, it has none.
pub proof fn lemma_a_name_is_the_one_given_last(names: Seq<(Seq<char>, Seq<char>)>, id: Seq<char>)
    ensures
        match name_given(names, id) {
            Some(name) => exists|at: int|
                0 <= at < names.len() && #[trigger] names[at] == (id, name) && forall|i: int|
                    at < i < names.len() ==> (#[trigger] names[i]).0 != id,
            None => forall|i: int| 0 <= i < names.len() ==> (#[trigger] names[i]).0 != id,
        },
    decreases names.len(),
{
    if names.len() > 0 {
        let fewer = names.drop_last();
        let last = names.len() - 1;
        lemma_a_name_is_the_one_given_last(fewer, id);
        assert(names[last] == names.last());
        assert(forall|i: int| 0 <= i < fewer.len() ==> fewer[i] == #[trigger] names[i]);
        if names[last].0 == id {
            assert(names[last] == (id, names[last].1));
        } else if let Some(name) = name_given(fewer, id) {
            let at = choose|at: int|
                0 <= at < fewer.len() && #[trigger] fewer[at] == (id, name) && forall|i: int|
                    at < i < fewer.len() ==> (#[trigger] fewer[i]).0 != id;
            assert(names[at] == (id, name));
        }
    }
}

/// A rename leaves every entry of another device where and as it is.
pub proof fn lemma_renaming_keeps_the_other_entries(
    names: Seq<(Seq<char>, Seq<char>)>,
    id: Seq<char>,
    name: Seq<char>,
)
    ensures
        ({
            let after = renamed(names, id, name);
            &&& names.len() <= after.len() <= names.len() + 1
            &&& forall|i: int|
                0 <= i < names.len() && names[i].0 != id ==> #[trigger] after[i] == names[i]
            &&& forall|i: int|
                0 <= i < after.len() && (#[trigger] after[i]).0 == id ==> after[i].1 == name
            &&& exists|i: int| 0 <= i < after.len() && #[trigger] after[i] == (id, name)
        }),
{
    let after = renamed(names, id, name);
    lemma_a_name_is_the_one_given_last(names, id);
    if let Some(given) = name_given(names, id) {
        let at = choose|at: int|
            0 <= at < names.len() && #[trigger] names[at] == (id, given) && forall|i: int|
                at < i < names.len() ==> (#[trigger] names[i]).0 != id;
        assert(after[at] == entry_renamed(names[at], id, name));
    } else {
        assert(after[names.len() as int] == (id, name));
    }
}

/// Names are what their texts say.
pub proof fn lemma_name_texts(names: Seq<(String, String)>, at: int)
    requires
        0 <= at < names.len(),
    ensures
        name_texts(names).len() == names.len(),
        name_texts(names)[at].0 == names[at].0@,
        name_texts(names)[at].1 == names[at].1@,
{
}

} // verus!
