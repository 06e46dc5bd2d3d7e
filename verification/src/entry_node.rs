//! What the tree holds of a file or directory, what a user is shown of it,
//! and how mode bits are spelled out.
use vstd::prelude::*;
use vstd::string::*;
use std::path::PathBuf;
use crate::entry_size::EntrySize;
use crate::entry_type::{EntryType, FileType};

verus! {

/// A filesystem path. The library carries paths and never looks into them.
#[verifier::external_type_specification]
#[verifier::external_body]
pub struct ExPathBuf(PathBuf);

/// `PathBuf::clone`: the copy is the same path.
pub assume_specification[ <PathBuf as Clone>::clone ](path: &PathBuf) -> (copy: PathBuf)
    ensures
        copy == *path,
;

/// The mode bits of an entry as the platform reports them.
#[derive(Clone, Copy, Debug, PartialEq, Eq, Structural)]
pub enum RawMode {
    /// Unix `st_mode`: file type and permission bits.
    Permissions(u32),
    /// Windows file attributes.
    Attributes(u32),
    /// The platform reports neither.
    Unknown,
}

/// A point in time: whole seconds since the Unix epoch, and the nanoseconds
/// on top of them.
#[derive(Clone, Copy, Debug, PartialEq, Eq, Structural)]
pub struct Timestamp {
    pub seconds: i64,
    pub nanoseconds: u32,
}

/// What the library reads of an entry's filesystem metadata.
#[derive(Clone, Copy, Debug, PartialEq, Eq, Structural)]
pub struct EntryMetadata {
    pub is_dir: bool,
    /// Logical length in bytes.
    pub len: u64,
    /// Bytes of storage that the entry itself occupies.
    pub size_on_disk: u64,
    /// Inode number; 0 where the platform has none.
    pub inode: u64,
    /// Number of hard links; 1 where the platform does not report it.
    pub links: u64,
    pub mode: RawMode,
    pub accessed: Option<Timestamp>,
}

impl EntryMetadata {
    /// The entry's own footprint: its length and the storage it occupies.
    pub open spec fn own_size(self) -> EntrySize {
        EntrySize { apparent_size: self.len, disk_size: self.size_on_disk }
    }

    /// The entry's own footprint: its length and the storage it occupies.
    pub fn size(&self) -> (size: EntrySize)
        ensures
            size == self.own_size(),
    {
        EntrySize::new(self.len, self.size_on_disk)
    }
}

/// What a directory entry is, going by the directory that lists it.
#[derive(Clone, Copy, Debug, PartialEq, Eq, Structural)]
pub enum DirEntryKind {
    Directory,
    File,
    /// A symbolic link, a device, a socket and the like.
    Other,
}

/// One entry of a directory, as the walker read it.
#[derive(Debug)]
pub struct DirEntryRecord {
    pub name: String,
    pub path: PathBuf,
    pub kind: DirEntryKind,
    /// `None` when the metadata could not be read.
    pub metadata: Option<EntryMetadata>,
}

impl DirEntryRecord {
    /// Whether the entry is a regular file.
    pub fn is_file(&self) -> (file: bool)
        ensures
            file == (self.kind == DirEntryKind::File),
    {
        self.kind == DirEntryKind::File
    }

    /// Whether the entry is a directory.
    pub fn is_dir(&self) -> (dir: bool)
        ensures
            dir == (self.kind == DirEntryKind::Directory),
    {
        self.kind == DirEntryKind::Directory
    }
}

/// The payload of a tree node: one file or directory.
#[derive(Debug)]
pub struct EntryNode {
    pub name: String,
    pub path: PathBuf,
    /// For a file, its own size, or nothing for a further link to a file
    /// counted elsewhere. For a directory, its own size and the sizes of all
    /// that is below it.
    pub sizes: EntrySize,
    pub descendants_count: usize,
    pub entry_type: EntryType,
    pub metadata: EntryMetadata,
}

impl Clone for EntryNode {
    fn clone(&self) -> (copy: Self)
        ensures
            copy == *self,
    {
        EntryNode {
            name: self.name.clone(),
            path: self.path.clone(),
            sizes: self.sizes,
            descendants_count: self.descendants_count,
            entry_type: self.entry_type,
            metadata: self.metadata,
        }
    }
}

/// File mode in the form shown to a user.
#[derive(Debug)]
pub enum Mode {
    /// Unix: type and permissions, as `ls -l` prints them.
    Permissions(String),
    /// Windows: one letter per attribute that is set.
    Attributes(String),
    Unknown,
}

/// What a [`Mode`] shows, as characters.
pub enum ModeView {
    Permissions(Seq<char>),
    Attributes(Seq<char>),
    Unknown,
}

impl View for Mode {
    type V = ModeView;

    open spec fn view(&self) -> ModeView {
        match self {
            Mode::Permissions(text) => ModeView::Permissions(text@),
            Mode::Attributes(text) => ModeView::Attributes(text@),
            Mode::Unknown => ModeView::Unknown,
        }
    }
}

/// A read-only snapshot of an entry for display, with the position of the
/// entry among the children of its parent.
#[derive(Debug)]
pub struct EntryNodeView {
    pub name: String,
    pub path: PathBuf,
    pub sizes: EntrySize,
    pub descendants_count: usize,
    pub entry_type: EntryType,
    pub mode: Mode,
    pub access_time: Option<Timestamp>,
    pub index_to_original_node: Option<usize>,
}

impl EntryNodeView {
    /// The snapshot of `entry` is exactly `self`, up to the position, which a
    /// snapshot taken from an entry alone does not have.
    pub open spec fn shows(self, entry: EntryNode) -> bool {
        &&& self.name == entry.name
        &&& self.path == entry.path
        &&& self.sizes == entry.sizes
        &&& self.descendants_count == entry.descendants_count
        &&& self.entry_type == entry.entry_type
        &&& self.mode@ == mode_view(entry.metadata.mode)
        &&& self.access_time == entry.metadata.accessed
    }

    /// A view of a directory that has not been read yet: no size, no
    /// descendants, no mode, no access time, no position.
    pub fn new_dir(name: String, path: PathBuf) -> (view: Self)
        ensures
            view.name == name,
            view.path == path,
            view.sizes == EntrySize::zero(),
            view.descendants_count == 0,
            view.entry_type == EntryType::Directory,
            view.mode@ == ModeView::Unknown,
            view.access_time is None,
            view.index_to_original_node is None,
    {
        EntryNodeView {
            name,
            path,
            sizes: EntrySize::new(0, 0),
            descendants_count: 0,
            entry_type: EntryType::Directory,
            mode: Mode::Unknown,
            access_time: None,
            index_to_original_node: None,
        }
    }

    /// The snapshot of an entry, without a position.
    pub fn from_entry_node(entry_node: &EntryNode) -> (view: Self)
        ensures
            view.shows(*entry_node),
            view.index_to_original_node is None,
    {
        EntryNodeView {
            name: entry_node.name.clone(),
            path: entry_node.path.clone(),
            sizes: entry_node.sizes,
            descendants_count: entry_node.descendants_count,
            entry_type: entry_node.entry_type,
            access_time: entry_node.metadata.accessed,
            mode: extract_mode(&entry_node.metadata),
            index_to_original_node: None,
        }
    }
}

impl EntryNode {
    /// The node for a directory that a walk enters, together with the
    /// directory's own size. The node's size starts at nothing: the walk adds
    /// to it what it finds.
    ///
    /// `None` when the metadata could not be read or is not that of a
    /// directory.
    pub fn new_dir(name: String, path: PathBuf, metadata: Option<EntryMetadata>) -> (res: Option<
        (Self, EntrySize),
    >)
        ensures
            match res {
                Some((node, size)) => {
                    &&& metadata matches Some(m) && m.is_dir
                    &&& node == (EntryNode {
                        name,
                        path,
                        sizes: EntrySize::zero(),
                        descendants_count: 0,
                        entry_type: EntryType::Directory,
                        metadata: metadata->0,
                    })
                    &&& size == metadata->0.own_size()
                },
                None => !(metadata matches Some(m) && m.is_dir),
            },
    {
        let Some(metadata) = metadata else {
            return None;
        };
        if !metadata.is_dir {
            return None;
        }
        let size = metadata.size();
        Some(
            (
                EntryNode {
                    name,
                    path,
                    sizes: EntrySize::new(0, 0),
                    descendants_count: 0,
                    entry_type: EntryType::Directory,
                    metadata,
                },
                size,
            ),
        )
    }

    /// What `try_from` makes of a record whose metadata is `metadata`.
    pub open spec fn of_record(value: DirEntryRecord, metadata: EntryMetadata) -> EntryNode {
        EntryNode {
            name: value.name,
            path: value.path,
            sizes: metadata.own_size(),
            descendants_count: 0,
            entry_type: Self::entry_type_of(value),
            metadata,
        }
    }

    /// A directory is a directory; anything else counts as a text file.
    pub open spec fn entry_type_of(dir_entry: DirEntryRecord) -> EntryType {
        if dir_entry.kind == DirEntryKind::Directory {
            EntryType::Directory
        } else {
            EntryType::File(FileType::Text)
        }
    }

    /// The node for a directory entry, with the entry's own size. Fails when
    /// the entry's metadata could not be read.
    pub fn try_from(value: &DirEntryRecord) -> (res: Result<Self, &'static str>)
        ensures
            match res {
                Ok(node) => value.metadata is Some && node == Self::of_record(
                    *value,
                    value.metadata->0,
                ),
                Err(message) => value.metadata is None && message@
                    == "Error getting metadata from DirEntry"@,
            },
    {
        let Some(metadata) = Self::extract_metadata(value) else {
            return Err("Error getting metadata from DirEntry");
        };
        let name = value.name.clone();
        let entry_type = Self::extract_entry_type(value);
        Ok(
            EntryNode {
                name,
                path: value.path.clone(),
                sizes: metadata.size(),
                descendants_count: 0,
                entry_type,
                metadata,
            },
        )
    }

    fn extract_entry_type(dir_entry: &DirEntryRecord) -> (entry_type: EntryType)
        ensures
            entry_type == Self::entry_type_of(*dir_entry),
    {
        if dir_entry.is_dir() {
            return EntryType::Directory;
        }
        EntryType::File(FileType::Text)
    }

    fn extract_metadata(dir_entry: &DirEntryRecord) -> (metadata: Option<EntryMetadata>)
        ensures
            metadata == dir_entry.metadata,
    {
        match dir_entry.metadata {
            Some(metadata) => Some(metadata),
            None => None,
        }
    }
}

/// `-` or the letter, by whether `bit` is set in `bits`.
pub open spec fn flag_char(bits: u32, bit: u32, letter: char) -> char {
    if bits & bit == 0 {
        '-'
    } else {
        letter
    }
}

/// The three characters `rwx` of one permission group, `-` for a bit that is
/// not set.
pub open spec fn access_chars(octal: u32) -> Seq<char> {
    seq![flag_char(octal, 0o4, 'r'), flag_char(octal, 0o2, 'w'), flag_char(octal, 0o1, 'x')]
}

/// The three characters of a permission group whose special bit (set-user-ID,
/// set-group-ID or sticky) is set: the last shows the special bit, as `set`
/// where the group may execute and as `unset` where it may not.
pub open spec fn special_access_chars(octal: u32, set: char, unset: char) -> Seq<char> {
    seq![
        flag_char(octal, 0o4, 'r'),
        flag_char(octal, 0o2, 'w'),
        if octal & 0o1 == 0 {
            unset
        } else {
            set
        },
    ]
}

/// The character for the file type in `mode`.
pub open spec fn file_type_char(mode: u32) -> char {
    let masked = mode & 0o170000;
    if masked == 0o140000 {
        's'
    } else if masked == 0o120000 {
        'l'
    } else if masked == 0o100000 {
        '-'
    } else if masked == 0o060000 {
        'b'
    } else if masked == 0o040000 {
        'd'
    } else if masked == 0o020000 {
        'c'
    } else if masked == 0o010000 {
        'p'
    } else {
        '?'
    }
}

/// The ten characters that show a Unix mode: the file type, then the
/// permissions of user, group and others.
pub open spec fn permission_chars(mode: u32) -> Seq<char> {
    seq![file_type_char(mode)] + (if mode & 0o4000 != 0 {
        special_access_chars(mode >> 6, 's', 'S')
    } else {
        access_chars(mode >> 6)
    }) + (if mode & 0o2000 != 0 {
        special_access_chars(mode >> 3, 's', 'S')
    } else {
        access_chars(mode >> 3)
    }) + (if mode & 0o1000 != 0 {
        special_access_chars(mode, 't', 't')
    } else {
        access_chars(mode)
    })
}

/// The five characters that show Windows file attributes: directory,
/// archive, read-only, hidden, system.
pub open spec fn attribute_chars(attributes: u32) -> Seq<char> {
    seq![
        flag_char(attributes, 0x10, 'd'),
        flag_char(attributes, 0x20, 'a'),
        flag_char(attributes, 0x01, 'r'),
        flag_char(attributes, 0x02, 'h'),
        flag_char(attributes, 0x04, 's'),
    ]
}

/// What is shown for the mode bits `mode`.
pub open spec fn mode_view(mode: RawMode) -> ModeView {
    match mode {
        RawMode::Permissions(bits) => ModeView::Permissions(permission_chars(bits)),
        RawMode::Attributes(bits) => ModeView::Attributes(attribute_chars(bits)),
        RawMode::Unknown => ModeView::Unknown,
    }
}

/// Appends `-` or `letter`, by whether `bit` is set in `bits`.
fn push_flag(text: &mut String, bits: u32, bit: u32, letter: &str)
    requires
        letter@.len() == 1,
    ensures
        final(text)@ == old(text)@.push(flag_char(bits, bit, letter@[0])),
{
    proof {
        reveal_strlit("-");
    }
    if bits & bit == 0 {
        text.append("-");
    } else {
        text.append(letter);
    }
    assert(text@ =~= old(text)@.push(flag_char(bits, bit, letter@[0])));
}

/// Appends the three characters of one permission group; with `special`, the
/// last of them shows the group's special bit.
fn push_access(text: &mut String, octal: u32, special: bool, set: &str, unset: &str)
    requires
        set@.len() == 1,
        unset@.len() == 1,
    ensures
        final(text)@ == old(text)@ + (if special {
            special_access_chars(octal, set@[0], unset@[0])
        } else {
            access_chars(octal)
        }),
{
    proof {
        reveal_strlit("r");
        reveal_strlit("w");
        reveal_strlit("x");
    }
    push_flag(text, octal, 0o4, "r");
    push_flag(text, octal, 0o2, "w");
    if special {
        if octal & 0o1 == 0 {
            text.append(unset);
        } else {
            text.append(set);
        }
        assert(text@ =~= old(text)@ + special_access_chars(octal, set@[0], unset@[0]));
    } else {
        push_flag(text, octal, 0o1, "x");
        assert(text@ =~= old(text)@ + access_chars(octal));
    }
}

/// The character for the file type in `mode`, as a string.
fn file_type_str(mode: u32) -> (text: &'static str)
    ensures
        text@ == seq![file_type_char(mode)],
{
    proof {
        reveal_strlit("s");
        reveal_strlit("l");
        reveal_strlit("-");
        reveal_strlit("b");
        reveal_strlit("d");
        reveal_strlit("c");
        reveal_strlit("p");
        reveal_strlit("?");
    }
    let masked = mode & 0o170000;
    let text = if masked == 0o140000 {
        "s"
    } else if masked == 0o120000 {
        "l"
    } else if masked == 0o100000 {
        "-"
    } else if masked == 0o060000 {
        "b"
    } else if masked == 0o040000 {
        "d"
    } else if masked == 0o020000 {
        "c"
    } else if masked == 0o010000 {
        "p"
    } else {
        "?"
    };
    assert(text@ =~= seq![file_type_char(mode)]);
    text
}

/// A Unix mode as `ls -l` prints it: the file type, then `rwx` for user,
/// group and others, with `s`, `S` and `t` for the set-user-ID, set-group-ID
/// and sticky bits.
pub fn permission_string(mode: u32) -> (result: String)
    ensures
        result@ == permission_chars(mode),
{
    proof {
        reveal_strlit("s");
        reveal_strlit("S");
        reveal_strlit("t");
    }
    let mut result = String::new();
    result.append(file_type_str(mode));
    push_access(&mut result, mode >> 6, mode & 0o4000 != 0, "s", "S");
    push_access(&mut result, mode >> 3, mode & 0o2000 != 0, "s", "S");
    push_access(&mut result, mode, mode & 0o1000 != 0, "t", "t");
    assert(result@ =~= permission_chars(mode));
    result
}

/// Windows file attributes, one character each: directory, archive,
/// read-only, hidden, system; `-` for an attribute that is not set.
pub fn attribute_string(attributes: u32) -> (result: String)
    ensures
        result@ == attribute_chars(attributes),
{
    proof {
        reveal_strlit("d");
        reveal_strlit("a");
        reveal_strlit("r");
        reveal_strlit("h");
        reveal_strlit("s");
    }
    let mut result = String::new();
    push_flag(&mut result, attributes, 0x10, "d");
    push_flag(&mut result, attributes, 0x20, "a");
    push_flag(&mut result, attributes, 0x01, "r");
    push_flag(&mut result, attributes, 0x02, "h");
    push_flag(&mut result, attributes, 0x04, "s");
    assert(result@ =~= attribute_chars(attributes));
    result
}

/// The permissions of one group as `rwx`, with `-` for each that is missing.
pub fn get_access_string_triple(octal: u32) -> (result: String)
    ensures
        result@ == access_chars(octal),
{
    proof {
        reveal_strlit("r");
        reveal_strlit("w");
        reveal_strlit("x");
    }
    let mut result = String::new();
    push_flag(&mut result, octal, 0o4, "r");
    push_flag(&mut result, octal, 0o2, "w");
    push_flag(&mut result, octal, 0o1, "x");
    assert(result@ =~= access_chars(octal));
    result
}

/// The display form of an entry's mode bits.
pub fn extract_mode(metadata: &EntryMetadata) -> (mode: Mode)
    ensures
        mode@ == mode_view(metadata.mode),
{
    match metadata.mode {
        RawMode::Permissions(bits) => Mode::Permissions(permission_string(bits)),
        RawMode::Attributes(bits) => Mode::Attributes(attribute_string(bits)),
        RawMode::Unknown => Mode::Unknown,
    }
}

} // verus!
