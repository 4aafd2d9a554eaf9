//! One node of the mirrored tree: a file, a directory or a symbolic link.
use vstd::prelude::*;
use crate::rule::Rules;

verus! {

/// Position of an entry in the arena that holds the tree.
pub type EntryId = usize;

/// A node of the tree. Entries name their parent and children by position in
/// the arena that holds them.
#[derive(Debug)]
pub enum Entry<T> {
    File { name: String, parent: EntryId, wd: i32, data: T, file_handle: u64 },
    Dir { name: String, parent: Option<EntryId>, children: Vec<EntryId>, wd: i32 },
    Symlink { name: String, parent: EntryId, link: String, wd: i32, rules: Rules },
}

impl<T> Entry<T> {
    pub open spec fn spec_name(&self) -> Seq<char> {
        match self {
            Entry::File { name, .. } => name@,
            Entry::Dir { name, .. } => name@,
            Entry::Symlink { name, .. } => name@,
        }
    }

    pub open spec fn spec_parent(&self) -> Option<EntryId> {
        match self {
            Entry::File { parent, .. } => Some(*parent),
            Entry::Dir { parent, .. } => *parent,
            Entry::Symlink { parent, .. } => Some(*parent),
        }
    }

    pub open spec fn spec_wd(&self) -> i32 {
        match self {
            Entry::File { wd, .. } => *wd,
            Entry::Dir { wd, .. } => *wd,
            Entry::Symlink { wd, .. } => *wd,
        }
    }

    pub open spec fn spec_children(&self) -> Seq<EntryId> {
        match self {
            Entry::Dir { children, .. } => children@,
            _ => seq![],
        }
    }

    /// Last component of the entry's path.
    pub fn name(&self) -> (r: &String)
        ensures
            r@ == self.spec_name(),
    {
        match self {
            Entry::File { name, .. } => name,
            Entry::Dir { name, .. } => name,
            Entry::Symlink { name, .. } => name,
        }
    }

    /// The directory holding the entry; none for the root.
    pub fn parent(&self) -> (r: Option<EntryId>)
        ensures
            r == self.spec_parent(),
    {
        match self {
            Entry::File { parent, .. } => Some(*parent),
            Entry::Dir { parent, .. } => *parent,
            Entry::Symlink { parent, .. } => Some(*parent),
        }
    }

    pub fn set_parent(&mut self, new_parent: EntryId)
        ensures
            final(self).spec_parent() == Some(new_parent),
            final(self).spec_name() == old(self).spec_name(),
            final(self).spec_wd() == old(self).spec_wd(),
            final(self).spec_children() == old(self).spec_children(),
            (*final(self) is File) == (*old(self) is File),
            (*final(self) is Dir) == (*old(self) is Dir),
            (*old(self) is File) ==> final(self)->File_data == old(self)->File_data
                && final(self)->File_file_handle == old(self)->File_file_handle,
            (*old(self) is Symlink) ==> final(self)->Symlink_link == old(self)->Symlink_link
                && final(self)->Symlink_rules == old(self)->Symlink_rules,
    {
        match self {
            Entry::File { parent, .. } => *parent = new_parent,
            Entry::Dir { parent, .. } => *parent = Some(new_parent),
            Entry::Symlink { parent, .. } => *parent = new_parent,
        }
    }

    pub fn set_name(&mut self, new_name: String)
        ensures
            final(self).spec_name() == new_name@,
            final(self).spec_parent() == old(self).spec_parent(),
            final(self).spec_wd() == old(self).spec_wd(),
            final(self).spec_children() == old(self).spec_children(),
            (*final(self) is File) == (*old(self) is File),
            (*final(self) is Dir) == (*old(self) is Dir),
            (*old(self) is File) ==> final(self)->File_data == old(self)->File_data
                && final(self)->File_file_handle == old(self)->File_file_handle,
            (*old(self) is Symlink) ==> final(self)->Symlink_link == old(self)->Symlink_link
                && final(self)->Symlink_rules == old(self)->Symlink_rules,
    {
        match self {
            Entry::File { name, .. } => *name = new_name,
            Entry::Dir { name, .. } => *name = new_name,
            Entry::Symlink { name, .. } => *name = new_name,
        }
    }

    /// The path a symbolic link points to.
    pub fn link(&self) -> (r: Option<&String>)
        ensures
            (self is Symlink) ==> r.is_some() && r.unwrap()@ == self->Symlink_link@,
            !(self is Symlink) ==> r.is_none(),
    {
        match self {
            Entry::Symlink { link, .. } => Some(link),
            _ => None,
        }
    }

    pub fn children_mut(&mut self) -> (r: Option<&mut Vec<EntryId>>)
        ensures
            (*old(self) is Dir) <==> r.is_some(),
            r matches Some(c) ==> c@ == old(self).spec_children(),
            r matches Some(c) ==> final(self).spec_children() == final(c)@,
            (*old(self) is Dir) ==> final(self).spec_name() == old(self).spec_name()
                && final(self).spec_parent() == old(self).spec_parent()
                && final(self).spec_wd() == old(self).spec_wd() && (*final(self) is Dir),
            !(*old(self) is Dir) ==> *final(self) == *old(self),
    {
        match self {
            Entry::Dir { children, .. } => Some(children),
            _ => None,
        }
    }

    pub fn watch_descriptor(&self) -> (r: i32)
        ensures
            r == self.spec_wd(),
    {
        match self {
            Entry::File { wd, .. } => *wd,
            Entry::Dir { wd, .. } => *wd,
            Entry::Symlink { wd, .. } => *wd,
        }
    }

    pub fn data_mut(&mut self) -> (r: Option<&mut T>)
        ensures
            (*old(self) is File) <==> r.is_some(),
            r matches Some(d) ==> *d == old(self)->File_data,
            r matches Some(d) ==> final(self)->File_data == *final(d),
            (*old(self) is File) ==> final(self).spec_name() == old(self).spec_name()
                && final(self).spec_parent() == old(self).spec_parent()
                && final(self).spec_wd() == old(self).spec_wd() && (*final(self) is File)
                && final(self)->File_file_handle == old(self)->File_file_handle,
            !(*old(self) is File) ==> *final(self) == *old(self),
    {
        match self {
            Entry::File { data, .. } => Some(data),
            _ => None,
        }
    }

    /// Keeps every field but the children.
    pub open spec fn same_but_children(&self, other: &Entry<T>) -> bool {
        &&& self.spec_name() == other.spec_name()
        &&& self.spec_parent() == other.spec_parent()
        &&& self.spec_wd() == other.spec_wd()
        &&& (self is Dir) == (other is Dir)
        &&& (self is File) == (other is File)
        &&& (self is Symlink) == (other is Symlink)
    }

    /// Appends `c` to a directory's children; other entries are left as they are.
    pub fn add_child(&mut self, c: EntryId)
        ensures
            final(self).same_but_children(old(self)),
            *old(self) is Dir ==> final(self).spec_children() == old(self).spec_children().push(c),
            !(*old(self) is Dir) ==> *final(self) == *old(self),
    {
        match self {
            Entry::Dir { children, .. } => children.push(c),
            _ => {},
        }
    }

    /// Takes the child at position `k` out of a directory's children.
    pub fn remove_child_at(&mut self, k: usize)
        requires
            k < old(self).spec_children().len(),
        ensures
            final(self).same_but_children(old(self)),
            final(self).spec_children() == old(self).spec_children().remove(k as int),
    {
        match self {
            Entry::Dir { children, .. } => {
                children.remove(k);
            },
            _ => {},
        }
    }

    /// Identifier of the open read handle that the caller keeps for a file.
    pub fn file_handle(&self) -> (r: Option<u64>)
        ensures
            (self is File) ==> r == Some(self->File_file_handle),
            !(self is File) ==> r.is_none(),
    {
        match self {
            Entry::File { file_handle, .. } => Some(*file_handle),
            _ => None,
        }
    }
}

} // verus!
