//! The table decoder: from the archive's bytes to the tree.

use vstd::prelude::*;
use crate::bytes::{
    extract_name, read_content, read_entry, read_text, spec_content, spec_entry, spec_name,
    spec_text, spec_u32_at, ByteCursor, Entry,
};
use crate::error::DecodeError;
use crate::wiifs::objs::{new_empty_dir, new_empty_root, new_file};
use crate::wiifs::{
    all_attachable, count_nodes, lemma_attach_all_appends, lemma_count_prepend, Node, WiiFSObject,
};
use vstd::pervasive::unreached;
use vstd::utf8::decode_utf8_encode_utf8;
use read::{ReadInfo, ReadState};

pub mod read;

verus! {

/// The type tag of a file's record.
pub const WIIFS_FILE_ID: u32 = 0;

/// The type tag of a directory's record.
pub const WIIFS_DIR_ID: u32 = 1;

/// `rest` with the nodes of `front` put before its own, or the error that
/// `rest` is.
pub open spec fn prefixed(front: Seq<Node>, rest: Result<(Seq<Node>, u32), DecodeError>) -> Result<
    (Seq<Node>, u32),
    DecodeError,
> {
    match rest {
        Ok((nodes, after)) => Ok((front + nodes, after)),
        Err(e) => Err(e),
    }
}

/// What filling one directory yields: its children in table order and the
/// shared index afterwards, or the first error met.
///
/// `index` is the shared index on entry, `ptr` the byte position of the
/// record of the entry at `index`, `pool` the bytes of the string pool and
/// `end` the directory's exclusive end index. Records lie one after another,
/// so each entry read moves the index on by one and the position by one
/// record. A file is one entry. A directory is its own entry and the entries
/// up to its end index, which become its children; what follows it is read
/// where those end.
pub open spec fn spec_walk(data: Seq<u8>, pool: Seq<u8>, index: u32, ptr: int, end: u32) -> Result<
    (Seq<Node>, u32),
    DecodeError,
>
    decreases u32::MAX - index,
{
    if index >= end {
        Ok((Seq::empty(), index))
    } else {
        match spec_entry(data, ptr) {
            None => Err(DecodeError::OutOfBounds),
            Some(entry) => match spec_name(pool, entry.spec_name_offset()) {
                Err(e) => Err(e),
                Ok(name) => if entry.spec_tag() == WIIFS_FILE_ID {
                    match spec_content(data, entry.field_b as int, entry.field_c as int) {
                        None => Err(DecodeError::OutOfBounds),
                        Some(content) => prefixed(
                            seq![Node::file(name, content)],
                            spec_walk(data, pool, (index + 1) as u32, ptr + 12, end),
                        ),
                    }
                } else if entry.spec_tag() == WIIFS_DIR_ID {
                    match spec_walk(data, pool, (index + 1) as u32, ptr + 12, entry.field_c) {
                        Err(e) => Err(e),
                        Ok((inner, after)) => {
                            // the index never moves back
                            let next = if after > index {
                                after
                            } else {
                                (index + 1) as u32
                            };
                            prefixed(
                                seq![Node::folder(name, inner)],
                                spec_walk(data, pool, next, ptr + 12 * (next - index), end),
                            )
                        },
                    }
                } else {
                    Err(DecodeError::UnknownTag(entry.spec_tag()))
                },
            },
        }
    }
}

/// The byte position just past the last of `entry_count` records.
pub open spec fn pool_start(table_start: u32, entry_count: u32) -> int {
    table_start + 12 + (entry_count - 1) * 12
}

/// The byte position at which the string pool ends.
pub open spec fn pool_end(table_start: u32, table_size: u32) -> int {
    table_start + table_size - 12
}

/// The bytes of the string pool.
pub open spec fn pool_bytes(data: Seq<u8>, table_start: u32, table_size: u32, entry_count: u32) -> Seq<
    u8,
> {
    data.subrange(pool_start(table_start, entry_count), pool_end(table_start, table_size))
}

/// The entry count and the decoded string pool of the table at `table_start`.
pub open spec fn spec_table(data: Seq<u8>, table_start: u32, table_size: u32) -> Result<
    (u32, Seq<char>),
    DecodeError,
> {
    match spec_u32_at(data, table_start + 8) {
        None => Err(DecodeError::OutOfBounds),
        Some(entry_count) => match spec_text(
            data,
            pool_start(table_start, entry_count),
            pool_end(table_start, table_size),
        ) {
            Err(e) => Err(e),
            Ok(pool) => Ok((entry_count, pool)),
        },
    }
}

/// What decoding the table into an existing root yields, with the shared
/// index starting at `index`: the root with the decoded nodes attached, and
/// the read state afterwards. The walk starts at the record after the
/// root's own.
pub open spec fn spec_decode_into(
    data: Seq<u8>,
    table_start: u32,
    table_size: u32,
    root: Node,
    index: u32,
) -> Result<(Node, ReadState), DecodeError> {
    match spec_table(data, table_start, table_size) {
        Err(e) => Err(e),
        Ok((entry_count, pool)) => match spec_walk(
            data,
            pool_bytes(data, table_start, table_size, entry_count),
            index,
            table_start + 12,
            entry_count,
        ) {
            Err(e) => Err(e),
            Ok((nodes, after)) => Ok(
                (
                    root.attach_all(nodes),
                    ReadState { current_node: after, string_table: Some(pool) },
                ),
            ),
        },
    }
}

/// The tree that the table at `table_start` decodes to.
pub open spec fn spec_decode(data: Seq<u8>, table_start: u32, table_size: u32) -> Result<
    Node,
    DecodeError,
> {
    match spec_decode_into(data, table_start, table_size, Node::root(Seq::empty()), 1) {
        Err(e) => Err(e),
        Ok((root, state)) => Ok(root),
    }
}

/// The table's start and size, from the archive's header: the big-endian
/// words at byte positions 4 and 8.
pub open spec fn spec_header(data: Seq<u8>) -> Result<(u32, u32), DecodeError> {
    match (spec_u32_at(data, 4), spec_u32_at(data, 8)) {
        (Some(table_start), Some(table_size)) => Ok((table_start, table_size)),
        _ => Err(DecodeError::OutOfBounds),
    }
}

/// A walk that succeeds leaves the index where it was if the directory was
/// already at its end, and otherwise moves it forward, at least to the end
/// index.
pub proof fn lemma_walk_advances(data: Seq<u8>, pool: Seq<u8>, index: u32, ptr: int, end: u32)
    requires
        spec_walk(data, pool, index, ptr, end) is Ok,
    ensures
        index >= end ==> spec_walk(data, pool, index, ptr, end)->Ok_0.1 == index,
        index < end ==> spec_walk(data, pool, index, ptr, end)->Ok_0.1 > index,
        index < end ==> spec_walk(data, pool, index, ptr, end)->Ok_0.1 >= end,
    decreases u32::MAX - index,
{
    if index < end {
        let entry = spec_entry(data, ptr)->Some_0;
        if entry.spec_tag() == WIIFS_FILE_ID {
            lemma_walk_advances(data, pool, (index + 1) as u32, ptr + 12, end);
        } else {
            let inner = spec_walk(data, pool, (index + 1) as u32, ptr + 12, entry.field_c);
            lemma_walk_advances(data, pool, (index + 1) as u32, ptr + 12, entry.field_c);
            let next = inner->Ok_0.1;
            lemma_walk_advances(data, pool, next, ptr + 12 * (next - index), end);
        }
    }
}

/// Every node that a walk yields is a file or a folder, never a root, and is
/// well formed all the way down.
pub proof fn lemma_walk_attachable(data: Seq<u8>, pool: Seq<u8>, index: u32, ptr: int, end: u32)
    requires
        spec_walk(data, pool, index, ptr, end) is Ok,
    ensures
        all_attachable(spec_walk(data, pool, index, ptr, end)->Ok_0.0),
    decreases u32::MAX - index,
{
    if index < end {
        let entry = spec_entry(data, ptr)->Some_0;
        let name = spec_name(pool, entry.spec_name_offset())->Ok_0;
        if entry.spec_tag() == WIIFS_FILE_ID {
            lemma_walk_attachable(data, pool, (index + 1) as u32, ptr + 12, end);
        } else {
            let inner = spec_walk(data, pool, (index + 1) as u32, ptr + 12, entry.field_c);
            lemma_walk_attachable(data, pool, (index + 1) as u32, ptr + 12, entry.field_c);
            lemma_walk_advances(data, pool, (index + 1) as u32, ptr + 12, entry.field_c);
            let next = inner->Ok_0.1;
            lemma_walk_attachable(data, pool, next, ptr + 12 * (next - index), end);
            assert(Node::folder(name, inner->Ok_0.0).well_formed());
        }
    }
}

/// Putting `node` in front of what follows, after `done`, is putting what
/// follows after `done` with `node` at its end.
proof fn lemma_prefixed_push(done: Seq<Node>, node: Node, rest: Result<(Seq<Node>, u32), DecodeError>)
    ensures
        prefixed(done, prefixed(seq![node], rest)) == prefixed(done.push(node), rest),
{
    if let Ok((nodes, after)) = rest {
        assert(done + (seq![node] + nodes) =~= done.push(node) + nodes);
    }
}

/// Fills `dir` with the entries from the shared index up to `last_child`.
/// `data_pointer` is the byte position of the record of the entry at the
/// shared index; each directory met is filled in turn, with the same `info`.
///
/// On success `dir` has the decoded nodes attached in table order and the
/// shared index stands where the walk left it. On failure `dir` and `info`
/// hold no usable state.
pub fn read_dir(
    dir: &mut WiiFSObject,
    info: &mut ReadInfo,
    data: &[u8],
    data_pointer: u64,
    last_child: u32,
) -> (r: Result<(), DecodeError>)
    requires
        old(info)@.current_node < last_child ==> old(info)@.string_table is Some,
    ensures
        match spec_walk(
            data@,
            old(info)@.pool_bytes(),
            old(info)@.current_node,
            data_pointer as int,
            last_child,
        ) {
            Ok((nodes, after)) => r is Ok && final(dir)@ == old(dir)@.attach_all(nodes) && final(info)@
                == (ReadState { current_node: after, ..old(info)@ }),
            Err(e) => r == Err::<(), DecodeError>(e),
        },
    decreases u32::MAX - old(info)@.current_node,
{
    let ghost pool = info@.pool_bytes();
    let ghost mut done: Seq<Node> = Seq::empty();
    let first: u32 = info.current_node();
    let total: usize = data.len();
    proof {
        let whole = spec_walk(data@, pool, first, data_pointer as int, last_child);
        if let Ok((nodes, after)) = whole {
            assert(done + nodes =~= nodes);
        }
    }
    while info.current_node() < last_child
        invariant
            info@.string_table == old(info)@.string_table,
            first < last_child ==> info@.string_table is Some,
            first == old(info)@.current_node,
            first <= info@.current_node,
            pool == old(info)@.pool_bytes(),
            total == data@.len(),
            dir@ == old(dir)@.attach_all(done),
            spec_walk(data@, pool, first, data_pointer as int, last_child) == prefixed(
                done,
                spec_walk(
                    data@,
                    pool,
                    info@.current_node,
                    data_pointer + 12 * (info@.current_node - first),
                    last_child,
                ),
            ),
        decreases u32::MAX - info@.current_node,
    {
        let index: u32 = info.current_node();
        let skipped: u64 = 12 * ((index - first) as u64);
        if skipped > u64::MAX - data_pointer {
            return Err(DecodeError::OutOfBounds);
        }
        let ptr: u64 = data_pointer + skipped;
        info.increment_node();
        let entry = match read_entry(data, ptr) {
            Some(entry) => entry,
            None => {
                return Err(DecodeError::OutOfBounds);
            },
        };
        let name = match info.string_table() {
            Some(table) => match extract_name(table.as_str(), entry.name_offset()) {
                Ok(name) => name,
                Err(e) => {
                    return Err(e);
                },
            },
            None => unreached(),
        };
        let tag = entry.tag();
        let new_fs_obj = if tag == WIIFS_FILE_ID {
            match read_content(data, entry.field_b, entry.field_c) {
                Some(content) => new_file(name, content),
                None => {
                    return Err(DecodeError::OutOfBounds);
                },
            }
        } else if tag == WIIFS_DIR_ID {
            let mut filled_dir = new_empty_dir(name);
            match read_dir(&mut filled_dir, info, data, ptr + 12, entry.field_c) {
                Ok(()) => {},
                Err(e) => {
                    return Err(e);
                },
            }
            proof {
                let inner = spec_walk(data@, pool, (index + 1) as u32, ptr + 12, entry.field_c);
                lemma_walk_attachable(data@, pool, (index + 1) as u32, ptr + 12, entry.field_c);
                lemma_walk_advances(data@, pool, (index + 1) as u32, ptr + 12, entry.field_c);
                lemma_attach_all_appends(Node::folder(name@, Seq::empty()), inner->Ok_0.0);
                assert(Seq::<Node>::empty() + inner->Ok_0.0 =~= inner->Ok_0.0);
            }
            filled_dir
        } else {
            return Err(DecodeError::UnknownTag(tag));
        };
        let ghost node = new_fs_obj@;
        dir.push_child(new_fs_obj);
        proof {
            assert(ptr + 12 * (info@.current_node - index) == data_pointer + 12 * (
            info@.current_node - first));
            lemma_prefixed_push(
                done,
                node,
                spec_walk(
                    data@,
                    pool,
                    info@.current_node,
                    data_pointer + 12 * (info@.current_node - first),
                    last_child,
                ),
            );
            assert(done.push(node).drop_last() =~= done);
            done = done.push(node);
        }
    }
    proof {
        assert(done + Seq::<Node>::empty() =~= done);
    }
    Ok(())
}

/// Decodes the table at `table_start` into `root`, threading `info`: reads
/// the entry count, decodes the string pool and fills `root`.
pub fn decode_into(
    root: &mut WiiFSObject,
    info: &mut ReadInfo,
    data: &[u8],
    table_start: u32,
    table_size: u32,
) -> (r: Result<(), DecodeError>)
    ensures
        match spec_decode_into(
            data@,
            table_start,
            table_size,
            old(root)@,
            old(info)@.current_node,
        ) {
            Ok((tree, state)) => r is Ok && final(root)@ == tree && final(info)@ == state,
            Err(e) => r == Err::<(), DecodeError>(e),
        },
{
    let mut cursor = ByteCursor::new(data);
    cursor.set_position(table_start as u64 + 8);
    let entry_count: u32 = match cursor.read_u32() {
        Ok(count) => count,
        Err(e) => {
            return Err(e);
        },
    };
    let start: u64 = table_start as u64 + 12 * (entry_count as u64);
    let table_end: u64 = table_start as u64 + table_size as u64;
    if table_end < 12 {
        return Err(DecodeError::OutOfBounds);
    }
    let pool = match read_text(data, start, table_end - 12) {
        Ok(pool) => pool,
        Err(e) => {
            return Err(e);
        },
    };
    proof {
        decode_utf8_encode_utf8(
            pool_bytes(data@, table_start, table_size, entry_count),
        );
    }
    info.init_string_table(pool);
    read_dir(root, info, data, table_start as u64 + 12, entry_count)
}

/// Decodes the table at `table_start`, of `table_size` bytes, into a tree.
pub fn decode(buffer: &[u8], table_start: u32, table_size: u32) -> (r: Result<
    WiiFSObject,
    DecodeError,
>)
    ensures
        match spec_decode(buffer@, table_start, table_size) {
            Ok(tree) => r matches Ok(root) && root@ == tree && tree.is_root() && tree.well_formed(),
            Err(e) => r == Err::<WiiFSObject, DecodeError>(e),
        },
{
    let mut root = new_empty_root();
    let mut info = ReadInfo::new();
    proof {
        if spec_decode(buffer@, table_start, table_size) is Ok {
            lemma_decode_well_formed(buffer@, table_start, table_size);
        }
    }
    match decode_into(&mut root, &mut info, buffer, table_start, table_size) {
        Ok(()) => Ok(root),
        Err(e) => Err(e),
    }
}

/// Every tree that a decode yields has one root, at the top: its children
/// are the nodes of the walk, none of them a root, at any depth.
pub proof fn lemma_decode_well_formed(data: Seq<u8>, table_start: u32, table_size: u32)
    requires
        spec_decode(data, table_start, table_size) is Ok,
    ensures
        spec_decode(data, table_start, table_size)->Ok_0.is_root(),
        spec_decode(data, table_start, table_size)->Ok_0.well_formed(),
        spec_decode(data, table_start, table_size)->Ok_0 == Node::root(
            spec_walk(
                data,
                pool_bytes(
                    data,
                    table_start,
                    table_size,
                    spec_table(data, table_start, table_size)->Ok_0.0,
                ),
                1,
                table_start + 12,
                spec_table(data, table_start, table_size)->Ok_0.0,
            )->Ok_0.0,
        ),
{
    let entry_count = spec_table(data, table_start, table_size)->Ok_0.0;
    let pool = pool_bytes(data, table_start, table_size, entry_count);
    let nodes = spec_walk(data, pool, 1, table_start + 12, entry_count)->Ok_0.0;
    lemma_walk_attachable(data, pool, 1, table_start + 12, entry_count);
    lemma_attach_all_appends(Node::root(Seq::empty()), nodes);
    assert(Seq::<Node>::empty() + nodes =~= nodes);
}

/// An archive: the name of the file it comes from, its bytes once they were
/// read, and the tree once it was decoded.
pub struct WiiArchive {
    filename: String,
    data: Option<Vec<u8>>,
    root: WiiFSObject,
    read_info: ReadInfo,
}

/// The mathematical counterpart of [`WiiArchive`].
pub struct ArchiveState {
    pub filename: Seq<char>,
    pub data: Option<Seq<u8>>,
    pub root: Node,
    pub info: ReadState,
}

impl ArchiveState {
    /// The node at the top is the root, and the tree below it is well formed:
    /// it holds no second root.
    pub open spec fn well_formed(self) -> bool {
        self.root.is_root() && self.root.well_formed()
    }
}

impl View for WiiArchive {
    type V = ArchiveState;

    closed spec fn view(&self) -> ArchiveState {
        ArchiveState {
            filename: self.filename@,
            data: match self.data {
                Some(bytes) => Some(bytes@),
                None => None,
            },
            root: self.root@,
            info: self.read_info@,
        }
    }
}

/// What decoding does to an archive. Without bytes nothing changes. With
/// bytes, the header gives the table, the table is decoded into the root,
/// and the bytes are let go.
pub open spec fn spec_populate(archive: ArchiveState) -> Result<ArchiveState, DecodeError> {
    match archive.data {
        None => Ok(archive),
        Some(data) => match spec_header(data) {
            Err(e) => Err(e),
            Ok((table_start, table_size)) => match spec_decode_into(
                data,
                table_start,
                table_size,
                archive.root,
                archive.info.current_node,
            ) {
                Err(e) => Err(e),
                Ok((tree, state)) => Ok(
                    ArchiveState { data: None, root: tree, info: state, ..archive },
                ),
            },
        },
    }
}

impl WiiArchive {
    /// An archive named `filename`, with no bytes yet and an empty root.
    pub fn new(filename: String) -> (r: WiiArchive)
        ensures
            r@ == (ArchiveState {
                filename: filename@,
                data: None,
                root: Node::root(Seq::empty()),
                info: ReadState { current_node: 1, string_table: None },
            }),
            r@.well_formed(),
    {
        WiiArchive {
            filename,
            data: None,
            root: new_empty_root(),
            read_info: ReadInfo::new(),
        }
    }

    /// The name of the file that holds the archive.
    pub fn filename(&self) -> (r: &str)
        ensures
            r@ == self@.filename,
    {
        self.filename.as_str()
    }

    /// Takes in the archive's bytes.
    pub fn read(&mut self, contents: Vec<u8>)
        ensures
            final(self)@ == (ArchiveState { data: Some(contents@), ..old(self)@ }),
    {
        self.data = Some(contents);
    }

    /// Takes in the archive's bytes and hands the archive on.
    pub fn read_borrow(self, contents: Vec<u8>) -> (r: WiiArchive)
        ensures
            r@ == (ArchiveState { data: Some(contents@), ..self@ }),
    {
        let mut archive = self;
        archive.read(contents);
        archive
    }

    /// Decodes the bytes that were read into the tree below the root. An
    /// archive whose bytes were not read comes back as it is.
    pub fn populate_root(self) -> (r: Result<WiiArchive, DecodeError>)
        ensures
            match spec_populate(self@) {
                Ok(state) => r matches Ok(archive) && archive@ == state,
                Err(e) => r == Err::<WiiArchive, DecodeError>(e),
            },
            self@.well_formed() ==> (r matches Ok(archive) ==> archive@.well_formed()),
    {
        proof {
            if self@.well_formed() && spec_populate(self@) is Ok {
                lemma_populate_well_formed(self@);
            }
        }
        let WiiArchive { filename, data, root, read_info } = self;
        let mut root = root;
        let mut read_info = read_info;
        let file_data = match data {
            Some(file_data) => file_data,
            None => {
                return Ok(WiiArchive { filename, data: None, root, read_info });
            },
        };
        let mut cursor = ByteCursor::new(file_data.as_slice());
        cursor.set_position(4);
        let table_start = match cursor.read_u32() {
            Ok(word) => word,
            Err(e) => {
                return Err(e);
            },
        };
        let table_size = match cursor.read_u32() {
            Ok(word) => word,
            Err(e) => {
                return Err(e);
            },
        };
        match decode_into(&mut root, &mut read_info, file_data.as_slice(), table_start, table_size) {
            Ok(()) => Ok(WiiArchive { filename, data: None, root, read_info }),
            Err(e) => Err(e),
        }
    }

    pub fn get_root(&self) -> (r: &WiiFSObject)
        ensures
            r@ == self@.root,
    {
        &self.root
    }
}

/// Decoding keeps the one root where it is: an archive with its root at the
/// top and none below has the same after a decode that succeeds.
pub proof fn lemma_populate_well_formed(archive: ArchiveState)
    requires
        archive.well_formed(),
        spec_populate(archive) is Ok,
    ensures
        spec_populate(archive)->Ok_0.well_formed(),
{
    if let Some(data) = archive.data {
        let (table_start, table_size) = spec_header(data)->Ok_0;
        let entry_count = spec_table(data, table_start, table_size)->Ok_0.0;
        let pool = pool_bytes(data, table_start, table_size, entry_count);
        let index = archive.info.current_node;
        let nodes = spec_walk(data, pool, index, table_start + 12, entry_count)->Ok_0.0;
        lemma_walk_attachable(data, pool, index, table_start + 12, entry_count);
        lemma_attach_all_appends(archive.root, nodes);
    }
}

/// A table whose entry count is 1 holds the root alone: where its string
/// pool can be decoded, the tree is a root without children.
pub proof fn lemma_root_only(data: Seq<u8>, table_start: u32, table_size: u32)
    requires
        spec_table(data, table_start, table_size) matches Ok((entry_count, pool)) && entry_count
            == 1,
    ensures
        spec_decode(data, table_start, table_size) == Ok::<Node, DecodeError>(
            Node::root(Seq::empty()),
        ),
{
}

/// A record whose type tag is neither that of a file nor that of a directory
/// fails the walk that reaches it, with the tag in the error: it is neither
/// skipped nor taken for a file or a directory.
pub proof fn lemma_unknown_tag_fails(data: Seq<u8>, pool: Seq<u8>, index: u32, ptr: int, end: u32)
    requires
        index < end,
        spec_entry(data, ptr) matches Some(entry) && entry.spec_tag() != WIIFS_FILE_ID
            && entry.spec_tag() != WIIFS_DIR_ID && spec_name(pool, entry.spec_name_offset()) is Ok,
    ensures
        spec_walk(data, pool, index, ptr, end) == Err::<(Seq<Node>, u32), DecodeError>(
            DecodeError::UnknownTag(spec_entry(data, ptr)->Some_0.spec_tag()),
        ),
{
}

/// A record whose type tag is neither that of a file nor that of a directory
/// fails the walk that reaches it, whatever else the record holds.
pub proof fn lemma_unknown_tag_never_decodes(
    data: Seq<u8>,
    pool: Seq<u8>,
    index: u32,
    ptr: int,
    end: u32,
)
    requires
        index < end,
        spec_entry(data, ptr) matches Some(entry) && entry.spec_tag() != WIIFS_FILE_ID
            && entry.spec_tag() != WIIFS_DIR_ID,
    ensures
        spec_walk(data, pool, index, ptr, end) is Err,
{
}

/// The record of entry `i` of a table whose entry `0` lies at byte position
/// `origin`.
pub open spec fn record_of(data: Seq<u8>, origin: int, i: int) -> Option<Entry> {
    spec_entry(data, origin + 12 * i)
}

/// No directory among the entries `from` up to `bound` claims an end past
/// `bound`.
pub open spec fn directories_end_by(data: Seq<u8>, origin: int, from: int, bound: u32) -> bool {
    forall|i: int|
        from <= i < bound ==> (#[trigger] record_of(data, origin, i) matches Some(entry) ==> (
        entry.spec_tag() == WIIFS_DIR_ID ==> entry.field_c <= bound))
}

/// A walk that starts at or before `bound`, towards an end at or before
/// `bound`, where no directory among the entries up to `bound` ends past it,
/// leaves the index at or before `bound`.
pub proof fn lemma_walk_bounded(
    data: Seq<u8>,
    pool: Seq<u8>,
    origin: int,
    index: u32,
    end: u32,
    bound: u32,
)
    requires
        spec_walk(data, pool, index, origin + 12 * index, end) is Ok,
        index <= bound,
        end <= bound,
        directories_end_by(data, origin, index as int, bound),
    ensures
        spec_walk(data, pool, index, origin + 12 * index, end)->Ok_0.1 <= bound,
    decreases u32::MAX - index,
{
    let ptr = origin + 12 * index;
    if index < end {
        let entry = spec_entry(data, ptr)->Some_0;
        assert(record_of(data, origin, index as int) == Some(entry));
        if entry.spec_tag() == WIIFS_FILE_ID {
            assert(ptr + 12 == origin + 12 * ((index + 1) as u32));
            lemma_walk_bounded(data, pool, origin, (index + 1) as u32, end, bound);
        } else {
            assert(ptr + 12 == origin + 12 * ((index + 1) as u32));
            let inner = spec_walk(data, pool, (index + 1) as u32, ptr + 12, entry.field_c);
            lemma_walk_bounded(data, pool, origin, (index + 1) as u32, entry.field_c, bound);
            lemma_walk_advances(data, pool, (index + 1) as u32, ptr + 12, entry.field_c);
            let next = inner->Ok_0.1;
            assert(ptr + 12 * (next - index) == origin + 12 * next);
            lemma_walk_bounded(data, pool, origin, next, end, bound);
        }
    }
}

/// Filling a directory whose end index is `end`, entered with the shared
/// index at or before `end`, leaves the shared index at `end` exactly: the
/// walk advances it `end - index` times. This holds where no directory among
/// the entries from `index` up to `end` claims an end past `end`.
pub proof fn lemma_walk_ends_at_end(data: Seq<u8>, pool: Seq<u8>, origin: int, index: u32, end: u32)
    requires
        spec_walk(data, pool, index, origin + 12 * index, end) is Ok,
        index <= end,
        directories_end_by(data, origin, index as int, end),
    ensures
        spec_walk(data, pool, index, origin + 12 * index, end)->Ok_0.1 == end,
{
    lemma_walk_bounded(data, pool, origin, index, end, end);
    lemma_walk_advances(data, pool, index, origin + 12 * index, end);
}

/// A walk builds one node for each entry that it reads: the nodes that it
/// yields, at all depths, are as many as the steps by which the shared index
/// moved.
pub proof fn lemma_walk_counts(data: Seq<u8>, pool: Seq<u8>, index: u32, ptr: int, end: u32)
    requires
        spec_walk(data, pool, index, ptr, end) is Ok,
    ensures
        count_nodes(spec_walk(data, pool, index, ptr, end)->Ok_0.0) == spec_walk(
            data,
            pool,
            index,
            ptr,
            end,
        )->Ok_0.1 - index,
    decreases u32::MAX - index,
{
    if index < end {
        let entry = spec_entry(data, ptr)->Some_0;
        let name = spec_name(pool, entry.spec_name_offset())->Ok_0;
        if entry.spec_tag() == WIIFS_FILE_ID {
            let content = spec_content(data, entry.field_b as int, entry.field_c as int)->Some_0;
            let rest = spec_walk(data, pool, (index + 1) as u32, ptr + 12, end);
            lemma_walk_counts(data, pool, (index + 1) as u32, ptr + 12, end);
            lemma_count_prepend(Node::file(name, content), rest->Ok_0.0);
        } else {
            let inner = spec_walk(data, pool, (index + 1) as u32, ptr + 12, entry.field_c);
            lemma_walk_counts(data, pool, (index + 1) as u32, ptr + 12, entry.field_c);
            lemma_walk_advances(data, pool, (index + 1) as u32, ptr + 12, entry.field_c);
            let next = inner->Ok_0.1;
            let rest = spec_walk(data, pool, next, ptr + 12 * (next - index), end);
            lemma_walk_counts(data, pool, next, ptr + 12 * (next - index), end);
            lemma_count_prepend(Node::folder(name, inner->Ok_0.0), rest->Ok_0.0);
        }
    }
}

} // verus!
