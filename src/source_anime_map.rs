//! The record that ties one source folder to the target folder it belongs in.
use vstd::prelude::*;

use vstd::string::StringExecFns;

use crate::text::{contains_str, occurs_in};

verus! {

/// What a source entry is.
#[derive(Debug, PartialEq)]
pub enum FileType {
    /// A plain file.
    File,
    /// A folder.
    Dir,
    /// A partial download, never matched nor copied.
    Other,
    /// A folder that holds only folders, each with a record of its own.
    Nesting(Vec<SourceAnimeMap>),
}

impl FileType {
    /// Whether this is a partial download.
    pub fn is_other(&self) -> (r: bool)
        ensures
            r == (*self is Other),
    {
        match self {
            FileType::Other => true,
            _ => false,
        }
    }
}

/// One source entry and the target folder it was matched to (empty while unmatched).
#[derive(Debug, PartialEq)]
pub struct SourceAnimeMap {
    pub source: String,
    pub anime: String,
    pub active: bool,
    pub file_type: FileType,
}

/// A value to set on a record itself (`Base`), or on the child at an index (`Index`).
pub enum Value<T> {
    Base(T),
    Index((usize, T)),
}

/// The sub-records of a nested record; none for another kind.
pub open spec fn children(m: SourceAnimeMap) -> Seq<SourceAnimeMap> {
    match m.file_type {
        FileType::Nesting(v) => v@,
        _ => Seq::empty(),
    }
}

/// A target list after `name` is added to it, as the text ", "-separated list of a
/// nested record: unchanged where `name` already occurs in it.
pub open spec fn joined(list: Seq<char>, name: Seq<char>) -> Seq<char> {
    if occurs_in(list, name) {
        list
    } else if list.len() == 0 {
        name
    } else {
        list + ", "@ + name
    }
}

/// Some record of `maps` is active.
pub open spec fn any_active(maps: Seq<SourceAnimeMap>) -> bool {
    exists|j: int| 0 <= j < maps.len() && (#[trigger] maps[j]).active
}

/// `new` is `old` with the target `name`, all else kept.
pub open spec fn with_anime(old: SourceAnimeMap, new: SourceAnimeMap, name: Seq<char>) -> bool {
    &&& new.source == old.source
    &&& new.anime@ == name
    &&& new.active == old.active
    &&& new.file_type == old.file_type
}

/// `new` is `old` with the active flag `flag`, all else kept.
pub open spec fn with_active(old: SourceAnimeMap, new: SourceAnimeMap, flag: bool) -> bool {
    &&& new.source == old.source
    &&& new.anime == old.anime
    &&& new.active == flag
    &&& new.file_type == old.file_type
}

/// `new` is the nested record `old` where at most child `i` changed; the other children
/// and the record's source are kept.
pub open spec fn others_kept(old: SourceAnimeMap, new: SourceAnimeMap, i: int) -> bool {
    &&& new.source == old.source
    &&& new.file_type is Nesting
    &&& children(new).len() == children(old).len()
    &&& forall|j: int| 0 <= j < children(old).len() && j != i ==> #[trigger] children(new)[j] == children(old)[j]
}

impl SourceAnimeMap {
    /// Whether the record still takes part: active, and not a partial download.
    pub fn active(&self) -> (r: bool)
        ensures
            r == (self.active && !(self.file_type is Other)),
    {
        self.active && !self.file_type.is_other()
    }

    /// The target the record is matched to.
    pub fn anime(&self) -> (r: &str)
        ensures
            r@ == self.anime@,
    {
        self.anime.as_str()
    }

    /// Sets the target of the record, or of its child `i`. A nested record then also
    /// lists that target among its own; another record takes index 0 as itself.
    pub fn set_anime(&mut self, anime: Value<&String>) -> (r: Result<(), &'static str>)
        requires
            match anime {
                Value::Index((i, _)) => old(self).file_type is Nesting ==> i < children(*old(self)).len(),
                _ => true,
            },
        ensures
            match anime {
                Value::Base(x) => r is Ok && with_anime(*old(self), *final(self), x@),
                Value::Index((i, x)) => if old(self).file_type is Nesting {
                    &&& r is Ok
                    &&& final(self).anime@ == joined(old(self).anime@, x@)
                    &&& final(self).active == old(self).active
                    &&& others_kept(*old(self), *final(self), i as int)
                    &&& with_anime(children(*old(self))[i as int], children(*final(self))[i as int], x@)
                } else if i == 0 {
                    r is Ok && with_anime(*old(self), *final(self), x@)
                } else {
                    r is Err && *final(self) == *old(self)
                },
            },
    {
        match anime {
            Value::Base(x) => {
                self.anime = x.clone();
                Ok(())
            },
            Value::Index((i, x)) => {
                match &mut self.file_type {
                    FileType::Nesting(maps) => {
                        let c = &mut maps[i];
                        c.anime = x.clone();
                    },
                    _ => {
                        if i == 0 {
                            self.anime = x.clone();
                            return Ok(());
                        } else {
                            return Err("set value error. file_type isn't nesting.");
                        }
                    },
                }
                if !contains_str(self.anime.as_str(), x.as_str()) {
                    if !self.anime.as_str().is_empty() {
                        self.anime.append(", ");
                    }
                    self.anime.append(x.as_str());
                }
                Ok(())
            },
        }
    }

    /// Sets the active flag of the record, or of its child `i`. A nested record is then
    /// active while any child is; another record takes index 0 as itself.
    pub fn set_active(&mut self, active: Value<bool>) -> (r: Result<(), &'static str>)
        requires
            match active {
                Value::Index((i, _)) => old(self).file_type is Nesting ==> i < children(*old(self)).len(),
                _ => true,
            },
        ensures
            match active {
                Value::Base(x) => r is Ok && with_active(*old(self), *final(self), x),
                Value::Index((i, x)) => if old(self).file_type is Nesting {
                    &&& r is Ok
                    &&& final(self).anime == old(self).anime
                    &&& final(self).active == any_active(children(*final(self)))
                    &&& others_kept(*old(self), *final(self), i as int)
                    &&& with_active(children(*old(self))[i as int], children(*final(self))[i as int], x)
                } else if i == 0 {
                    r is Ok && with_active(*old(self), *final(self), x)
                } else {
                    r is Err && *final(self) == *old(self)
                },
            },
    {
        match active {
            Value::Base(x) => {
                self.active = x;
                Ok(())
            },
            Value::Index((i, x)) => {
                match &mut self.file_type {
                    FileType::Nesting(maps) => {
                        let c = &mut maps[i];
                        c.active = x;
                    },
                    _ => {
                        if i == 0 {
                            self.active = x;
                            return Ok(());
                        } else {
                            return Err("set value error. file_type isn't nesting.");
                        }
                    },
                }
                let any = match &self.file_type {
                    FileType::Nesting(maps) => any_active_of(maps),
                    _ => false,
                };
                self.active = any;
                Ok(())
            },
        }
    }
}

/// Whether some record of `maps` is active.
fn any_active_of(maps: &Vec<SourceAnimeMap>) -> (r: bool)
    ensures
        r == any_active(maps@),
{
    let mut j: usize = 0;
    while j < maps.len()
        invariant
            0 <= j <= maps@.len(),
            forall|k: int| 0 <= k < j ==> !(#[trigger] maps@[k]).active,
        decreases maps@.len() - j,
    {
        if maps[j].active {
            return true;
        }
        j = j + 1;
    }
    false
}

} // verus!
