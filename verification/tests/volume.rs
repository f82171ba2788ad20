use std::borrow::Cow;
use std::cell::RefCell;
use std::collections::{BTreeMap, HashMap, HashSet};
use std::rc::Rc;

use apfsrelic::decmpfs::NoCodec;
use apfsrelic::destination::{
    check_read_back, create_temp_file, write_bytes_atomic, Creation, Destination, ReadBack,
    Standing,
};
use apfsrelic::device::BlockDevice;
use apfsrelic::error::{Error, ErrorKind};
use apfsrelic::extract::{SparseFile, Written};
use apfsrelic::history::{EntryType, LatestPresence};
use apfsrelic::history_union::ManifestFormat;
use apfsrelic::image::{
    ApfsImage, ApfsSuperblock, Container, DirRec, Inode, InodeKind, TreeReader, Xattr, XattrStream,
};
use apfsrelic::jrec::{
    split_obj_id_and_type, FileExtent, Record, APFS_TYPE_DIR_REC, APFS_TYPE_FILE_EXTENT,
    APFS_TYPE_INODE, APFS_TYPE_XATTR,
};
use apfsrelic::journal::Journal;
use apfsrelic::json::Json;
use apfsrelic::manifest::{Manifest, ManifestRow};
use apfsrelic::manifest_run::{recover_manifest, required_paths};
use apfsrelic::omap::{OmapEntry, OmapKey, OmapPhys, OmapVal, OMAP_VAL_DELETED};
use apfsrelic::options::Options;
use apfsrelic::raw::u64_at;
use apfsrelic::recover::{
    guard_standing, is_safe_name, join_path, record_child_error_or_fail, recovery_status,
    refuse_encrypted, FileResult, HardlinkState, Progress, Recovery,
};
use apfsrelic::recover_manifest::{
    emit_work_item, fallback_source_path, finish_or_reschedule, validate_options, Attempt, Summary,
    WorkItem,
};
use apfsrelic::scan::{join_absolute, join_relative, safe_component, scan_all};
use apfsrelic::snapshots::{index_by_xid, select_snapshots, SnapshotInfo};
use apfsrelic::staging::{components, install_staging, prepare_output_root, secure_target, Component};
use apfsrelic::stat::{hex, jrec_type_name, stat, stat_lines};
use apfsrelic::union_run::{unite, Union};
use apfsrelic::vol::{collect_extents, select_file_data_records, Resolved, SnapshotSource, Volume};
use apfsrelic::xid_map::XidMap;

// ---------------------------------------------------------------------------
// An image in memory
// ---------------------------------------------------------------------------

const BLOCK: u32 = 4;

fn record(oid: u64, ty: u8) -> Record {
    Record {
        key: ((oid & 0x0fff_ffff_ffff_ffff) | ((ty as u64) << 60))
            .to_le_bytes()
            .to_vec(),
        val: Vec::new(),
    }
}

fn extent_record(oid: u64, logical_addr: u64, len: u64, phys_block_num: u64) -> Record {
    let mut record = record(oid, APFS_TYPE_FILE_EXTENT);
    record.key.extend_from_slice(&logical_addr.to_le_bytes());
    record.val.extend_from_slice(&len.to_le_bytes());
    record.val.extend_from_slice(&phys_block_num.to_le_bytes());
    record.val.extend_from_slice(&0u64.to_le_bytes());
    record
}

const COMPRESSED: u8 = 1;
const SPARSE: u8 = 2;

fn inode_record(oid: u64, kind: u8, flags: u8, links: u8, size: u64, private_id: u64) -> Record {
    let mut record = record(oid, APFS_TYPE_INODE);
    record.val.push(kind);
    record.val.push(flags);
    record.val.push(links);
    record.val.extend_from_slice(&size.to_le_bytes());
    record.val.extend_from_slice(&private_id.to_le_bytes());
    record
}

fn dir_record(oid: u64, name: &str, child: u64, label: &str) -> Record {
    let mut record = record(oid, APFS_TYPE_DIR_REC);
    record.key.extend_from_slice(name.as_bytes());
    record.val.extend_from_slice(&child.to_le_bytes());
    record.val.extend_from_slice(label.as_bytes());
    record
}

const EMBEDDED: u8 = 1;
const STREAM: u8 = 2;

fn xattr_record(oid: u64, name: &str, storage: u8, data: &[u8]) -> Record {
    let mut record = record(oid, APFS_TYPE_XATTR);
    record.key.extend_from_slice(name.as_bytes());
    record.val.push(storage);
    record.val.extend_from_slice(data);
    record
}

fn word(data: &[u8], at: usize) -> u64 {
    let mut bytes = [0u8; 8];
    bytes.copy_from_slice(&data[at..at + 8]);
    u64::from_le_bytes(bytes)
}

fn corrupt(message: &str) -> Error {
    Error::new(ErrorKind::Corrupt, message.to_string())
}

#[derive(Clone)]
struct Image {
    blocks: Rc<Vec<u8>>,
    /// The records of each object, by the root of the tree that holds it.
    trees: Rc<RefCell<HashMap<(u64, u64), Vec<Record>>>>,
    broken: Rc<RefCell<HashSet<(u64, u64)>>>,
    warnings: Rc<RefCell<Vec<String>>>,
    root_flags: u32,
}

impl Image {
    fn new() -> Image {
        let mut blocks = Vec::new();
        for c in b"0123456789abcdef" {
            blocks.extend_from_slice(&[*c; BLOCK as usize]);
        }
        Image {
            blocks: Rc::new(blocks),
            trees: Rc::new(RefCell::new(HashMap::new())),
            broken: Rc::new(RefCell::new(HashSet::new())),
            warnings: Rc::new(RefCell::new(Vec::new())),
            root_flags: 0,
        }
    }

    fn put(&self, root: u64, oid: u64, record: Record) {
        self.trees
            .borrow_mut()
            .entry((root, oid))
            .or_default()
            .push(record);
    }

    fn file(&self, root: u64, oid: u64, size: u64, extents: &[(u64, u64, u64)]) {
        self.put(root, oid, inode_record(oid, 0, 0, 1, size, oid));
        for (addr, len, block) in extents {
            self.put(root, oid, extent_record(oid, *addr, *len, *block));
        }
    }

    fn dir(&self, root: u64, oid: u64, children: &[(&str, u64, &str)]) {
        self.put(root, oid, inode_record(oid, 1, 0, 1, 0, oid));
        for (name, child, label) in children {
            self.put(root, oid, dir_record(oid, name, *child, label));
        }
    }

    fn link(&self, root: u64, oid: u64, target: &str) {
        let mut data = target.as_bytes().to_vec();
        data.push(0);
        self.put(root, oid, inode_record(oid, 2, 0, 1, 0, oid));
        self.put(
            root,
            oid,
            xattr_record(oid, "com.apple.fs.symlink", EMBEDDED, &data),
        );
    }

    fn volume(&self, root: u64, xid: u64) -> Volume<Image> {
        Volume {
            dev: self.clone(),
            block_size: BLOCK,
            apsb: superblock(),
            omap_tree_root: 7,
            root_tree_root: root,
            max_xid: xid,
            warnings: Vec::new(),
        }
    }
}

fn superblock() -> ApfsSuperblock {
    ApfsSuperblock {
        xid: 30,
        omap_oid: 1,
        root_tree_oid: 100,
        encrypted: false,
        case_insensitive: false,
        normalization_insensitive: false,
    }
}

impl BlockDevice for Image {
    fn read_block(&self, block: u64, block_size: u32) -> Result<Vec<u8>, Error> {
        let start = block as usize * block_size as usize;
        let end = start + block_size as usize;
        if end > self.blocks.len() {
            return Err(Error::new(ErrorKind::Io, "no such block".to_string()));
        }
        Ok(self.blocks[start..end].to_vec())
    }
}

struct Reader {
    image: Image,
}

impl TreeReader for Reader {
    fn omap_get(
        &self,
        omap_root: u64,
        oid: u64,
        max_xid: u64,
    ) -> Result<Option<OmapEntry>, Error> {
        if oid == 404 {
            return Ok(None);
        }
        Ok(Some(OmapEntry {
            key: OmapKey { oid, xid: max_xid },
            val: OmapVal {
                flags: self.image.root_flags,
                size: 0,
                paddr: omap_root + oid,
            },
        }))
    }

    fn fs_collect(
        &self,
        _omap_root: Option<u64>,
        root: u64,
        oid: u64,
        _max_xid: u64,
    ) -> Result<Vec<Record>, Error> {
        if self.image.broken.borrow().contains(&(root, oid)) {
            return Err(corrupt("bad node"));
        }
        Ok(self
            .image
            .trees
            .borrow()
            .get(&(root, oid))
            .cloned()
            .unwrap_or_default())
    }

    fn take_warnings(&self) -> Vec<String> {
        std::mem::take(&mut *self.image.warnings.borrow_mut())
    }
}

impl ApfsImage for Image {
    type Reader = Reader;

    fn tree_reader(&self, _block_size: u32) -> Reader {
        Reader {
            image: self.clone(),
        }
    }

    fn check_volume(apsb: &ApfsSuperblock) -> Result<Vec<String>, Error> {
        if apsb.case_insensitive {
            return Err(Error::new(
                ErrorKind::UnsupportedFeature,
                "feature".to_string(),
            ));
        }
        Ok(vec!["checked".to_string()])
    }

    fn parse_omap(block: &Vec<u8>) -> Result<OmapPhys, Error> {
        Ok(OmapPhys {
            tree_oid: block[0] as u64,
            physical_tree: block[0] != b'2',
        })
    }

    fn parse_inode(val: &Vec<u8>) -> Result<Inode, Error> {
        if val.is_empty() {
            return Err(corrupt("empty inode"));
        }
        let size = word(val, 3);
        Ok(Inode {
            parent_id: 2,
            private_id: word(val, 11),
            create_time: 1,
            mod_time: 2,
            change_time: 0,
            access_time: 4,
            internal_flags: 0x8000,
            nchildren_or_nlink: val[2] as i32,
            bsd_flags: 0x20,
            owner: 501,
            group: 20,
            mode: 0o100644,
            kind: match val[0] {
                0 => InodeKind::Regular,
                1 => InodeKind::Dir,
                2 => InodeKind::Symlink,
                _ => InodeKind::Other,
            },
            compressed: val[1] & COMPRESSED != 0,
            sparse: val[1] & SPARSE != 0,
            rsrc_fork: false,
            finder_info: false,
            logical_size: if val[0] == 0 { Some(size) } else { None },
            allocated_size: if val[0] == 0 { Some(size) } else { None },
            name: Some("named".to_string()),
        })
    }

    fn parse_dir_rec(key: &Vec<u8>, val: &Vec<u8>) -> Result<DirRec, Error> {
        if val.len() < 8 {
            return Err(corrupt("short entry"));
        }
        Ok(DirRec {
            name: String::from_utf8(key[8..].to_vec()).unwrap(),
            file_id: word(val, 0),
            flags: 0,
            type_label: String::from_utf8(val[8..].to_vec()).unwrap(),
        })
    }

    fn parse_xattr(key: &Vec<u8>, val: &Vec<u8>) -> Result<Xattr, Error> {
        if val.is_empty() {
            return Err(corrupt("short xattr"));
        }
        Ok(Xattr {
            name: String::from_utf8(key[8..].to_vec()).unwrap(),
            flags: val[0] as u16,
            embedded: val[0] & EMBEDDED != 0,
            stream: val[0] & STREAM != 0,
            data: val[1..].to_vec(),
        })
    }

    fn parse_xattr_stream(data: &Vec<u8>) -> Result<XattrStream, Error> {
        if data.len() < 24 {
            return Err(corrupt("short stream"));
        }
        Ok(XattrStream {
            xattr_obj_id: word(data, 0),
            size: word(data, 8),
            allocated_size: word(data, 16),
        })
    }

    fn text_of(data: &Vec<u8>) -> String {
        let end = data.iter().position(|b| *b == 0).unwrap_or(data.len());
        String::from_utf8_lossy(&data[..end]).to_string()
    }

    fn time_text(raw: u64) -> Option<String> {
        if raw == 0 {
            None
        } else {
            Some(format!("time {raw}"))
        }
    }
}

/// Snapshots and the paths in them.
struct Source {
    image: Image,
    roots: HashMap<u64, u64>,
    paths: HashMap<(u64, String), (u64, String)>,
}

impl Source {
    fn new(image: &Image) -> Source {
        Source {
            image: image.clone(),
            roots: HashMap::new(),
            paths: HashMap::new(),
        }
    }

    fn snapshot(&mut self, xid: u64, root: u64) {
        self.roots.insert(xid, root);
    }

    fn path(&mut self, root: u64, path: &str, fsoid: u64, label: &str) {
        self.paths
            .insert((root, path.to_string()), (fsoid, label.to_string()));
    }
}

impl SnapshotSource<Image> for Source {
    fn open_snapshot(&self, snap: &SnapshotInfo) -> Result<Volume<Image>, Error> {
        match self.roots.get(&snap.xid) {
            Some(root) => Ok(self.image.volume(*root, snap.xid)),
            None => Err(corrupt("snapshot is gone")),
        }
    }

    fn resolve(&self, vol: &Volume<Image>, _bt: &Reader, path: &str) -> Result<Resolved, Error> {
        match self.paths.get(&(vol.root_tree_root, path.to_string())) {
            Some((fsoid, label)) => Ok(Resolved {
                fsoid: *fsoid,
                type_label: label.clone(),
            }),
            None => Err(Error::new(
                ErrorKind::PathNotFound,
                format!("no path {path}"),
            )),
        }
    }
}

struct Disk {
    image: Image,
    apsb: ApfsSuperblock,
}

impl Container for Disk {
    type Image = Image;

    fn volume_superblock(&self, index: u32) -> Result<ApfsSuperblock, Error> {
        if index == 0 {
            Ok(self.apsb)
        } else {
            Err(Error::new(ErrorKind::ObjectNotFound, "no volume".to_string()))
        }
    }

    fn device(&self) -> Image {
        self.image.clone()
    }

    fn block_size(&self) -> u32 {
        BLOCK
    }
}

fn info(xid: u64, name: &str) -> SnapshotInfo {
    SnapshotInfo {
        xid,
        name: name.to_string(),
        sblock_oid: 0,
        extentref_tree_oid: 0,
        create_time: xid,
        change_time: 0,
    }
}

// ---------------------------------------------------------------------------
// A file system in memory
// ---------------------------------------------------------------------------

#[derive(Clone, Debug, PartialEq)]
enum Node {
    Dir,
    File(Vec<u8>),
    Link(String),
}

struct Disc {
    nodes: RefCell<BTreeMap<String, Node>>,
    stream: RefCell<Vec<u8>>,
    report: RefCell<String>,
    kernel: bool,
    fail_fill: bool,
    fail_install: bool,
    fail_report: bool,
    fail_stream: bool,
    fail_flush: bool,
    fail_set_len: bool,
    /// How many bytes may be written before the disc is full.
    room: Option<usize>,
    refuse: RefCell<HashSet<String>>,
    failed_removals: RefCell<HashSet<String>>,
    /// What was asked, in order.
    asked: RefCell<Vec<String>>,
    /// How many bytes each request brought, in order.
    sizes: RefCell<Vec<usize>>,
    /// Where the next bytes of each file go.
    cursors: RefCell<HashMap<String, usize>>,
    notices: RefCell<Vec<String>>,
}

fn parent(path: &str) -> Option<String> {
    if path == "/" || path.is_empty() {
        return None;
    }
    match path.rfind('/') {
        Some(0) => Some("/".to_string()),
        Some(at) => Some(path[..at].to_string()),
        None => Some(String::new()),
    }
}

fn io(message: &str) -> Error {
    Error::new(ErrorKind::Io, message.to_string())
}

impl Disc {
    fn new() -> Disc {
        Disc {
            nodes: RefCell::new(BTreeMap::new()),
            stream: RefCell::new(Vec::new()),
            report: RefCell::new(String::new()),
            kernel: false,
            fail_fill: false,
            fail_install: false,
            fail_report: false,
            fail_stream: false,
            fail_flush: false,
            fail_set_len: false,
            room: None,
            refuse: RefCell::new(HashSet::new()),
            failed_removals: RefCell::new(HashSet::new()),
            asked: RefCell::new(Vec::new()),
            sizes: RefCell::new(Vec::new()),
            cursors: RefCell::new(HashMap::new()),
            notices: RefCell::new(Vec::new()),
        }
    }

    fn note(&self, what: &str, path: &str) {
        self.asked.borrow_mut().push(format!("{what} {path}"));
    }

    fn asked(&self) -> Vec<String> {
        std::mem::take(&mut *self.asked.borrow_mut())
    }

    fn move_node(&self, from: &str, to: &str) -> Result<(), Error> {
        let node = self.nodes.borrow_mut().remove(from);
        match node {
            Some(node) => {
                self.put(to, node);
                Ok(())
            }
            None => Err(io("nothing to rename")),
        }
    }

    fn put(&self, path: &str, node: Node) {
        self.nodes.borrow_mut().insert(path.to_string(), node);
    }

    fn get(&self, path: &str) -> Option<Node> {
        self.nodes.borrow().get(path).cloned()
    }

    fn names(&self) -> Vec<String> {
        self.nodes.borrow().keys().cloned().collect()
    }

    fn make_new(&self, path: &str, node: Node) -> Result<(), Error> {
        if self.nodes.borrow().contains_key(path) {
            return Err(io("exists"));
        }
        self.put(path, node);
        Ok(())
    }
}

impl Destination for Disc {
    type Temp = String;

    fn process_id(&self) -> u32 {
        77
    }

    fn has_kernel_codec(&self) -> bool {
        self.kernel
    }

    fn standing(&self, path: &str) -> Result<Standing, Error> {
        self.note("standing", path);
        if self.refuse.borrow().contains(path) {
            return Err(Error::new(
                ErrorKind::PermissionDenied,
                "refused".to_string(),
            ));
        }
        Ok(match self.get(path) {
            None => Standing::Nothing,
            Some(Node::Dir) => Standing::Dir,
            Some(Node::File(_)) => Standing::Other,
            Some(Node::Link(_)) => Standing::Link,
        })
    }

    fn reaches(&self, path: &str) -> bool {
        self.note("reaches", path);
        match self.get(path) {
            None => false,
            Some(Node::Link(target)) => self.get(&target).is_some(),
            Some(_) => true,
        }
    }

    fn absolute(&self, path: &str) -> Result<String, Error> {
        if path.starts_with('/') {
            Ok(path.to_string())
        } else {
            Ok(format!("/cwd/{path}"))
        }
    }

    fn canonical(&self, path: &str) -> Result<String, Error> {
        Ok(path.to_string())
    }

    fn beside(&self, path: &str, name: &str) -> Option<String> {
        parent(path).map(|dir| join_path(&dir, name))
    }

    fn make_dir(&self, path: &str) -> Result<(), Error> {
        self.note("make_dir", path);
        self.make_new(path, Node::Dir)
    }

    fn make_dirs(&self, path: &str) -> Result<(), Error> {
        self.note("make_dirs", path);
        if self.get(path).is_none() {
            self.put(path, Node::Dir);
        }
        Ok(())
    }

    fn make_parents(&self, path: &str) -> Result<(), Error> {
        self.note("make_parents", path);
        if self.refuse.borrow().contains(path) {
            return Err(io("no parents"));
        }
        Ok(())
    }

    fn create_beside(&self, path: &str, name: &str) -> Creation<String> {
        let candidate = match self.beside(path, name) {
            Some(candidate) => candidate,
            None => return Creation::Failed(io("no parent")),
        };
        self.note("create", &candidate);
        match self.make_new(&candidate, Node::File(Vec::new())) {
            Ok(()) => {
                self.cursors.borrow_mut().insert(candidate.clone(), 0);
                Creation::Created(candidate)
            }
            Err(_) => Creation::Taken,
        }
    }

    fn fill(&self, temp: &String, bytes: &Vec<u8>) -> Result<(), Error> {
        self.note("fill", temp);
        self.sizes.borrow_mut().push(bytes.len());
        let mut held = match self.get(temp) {
            Some(Node::File(held)) => held,
            _ => return Err(io("no such file")),
        };
        let start = self.cursors.borrow()[temp];
        let end = start + bytes.len();
        if self.room.is_some_and(|room| end > room) {
            return Err(io("disk is full"));
        }
        if held.len() < end {
            held.resize(end, 0);
        }
        held[start..end].copy_from_slice(bytes);
        self.put(temp, Node::File(held));
        self.cursors.borrow_mut().insert(temp.clone(), end);
        if self.fail_fill {
            return Err(io("disk is full"));
        }
        Ok(())
    }

    fn skip(&self, temp: &String, to: u64) -> Result<(), Error> {
        self.note(&format!("skip to {to} in"), temp);
        self.cursors.borrow_mut().insert(temp.clone(), to as usize);
        Ok(())
    }

    fn set_len(&self, temp: &String, len: u64) -> Result<(), Error> {
        self.note(&format!("set length {len} of"), temp);
        if self.fail_set_len {
            return Err(io("cannot set the length"));
        }
        if let Some(Node::File(mut held)) = self.get(temp) {
            held.resize(len as usize, 0);
            self.put(temp, Node::File(held));
        }
        Ok(())
    }

    fn flush(&self, temp: &String) -> Result<(), Error> {
        self.note("flush", temp);
        if self.fail_flush {
            return Err(io("cannot flush"));
        }
        Ok(())
    }

    fn fill_compressed(
        &self,
        temp: &String,
        attribute: &Vec<u8>,
        resource_fork: &Option<Vec<u8>>,
    ) -> Result<ReadBack, Error> {
        let mut bytes = b"kernel:".to_vec();
        bytes.extend_from_slice(&attribute[16..]);
        if let Some(fork) = resource_fork {
            bytes.extend_from_slice(fork);
        }
        self.put(temp, Node::File(bytes));
        Ok(ReadBack {
            bytes: word(attribute, 8),
            more: false,
        })
    }

    fn install(&self, temp: &String, path: &str) -> Result<(), Error> {
        self.note("install", path);
        if self.fail_install {
            return Err(io("cannot rename"));
        }
        self.move_node(temp, path)
    }

    fn discard(&self, temp: &String) {
        self.note("discard", temp);
        self.nodes.borrow_mut().remove(temp);
    }

    fn stream(&self, bytes: &Vec<u8>) -> Result<(), Error> {
        self.sizes.borrow_mut().push(bytes.len());
        if self.fail_stream {
            return Err(io("stream is closed"));
        }
        self.stream.borrow_mut().extend_from_slice(bytes);
        Ok(())
    }

    fn remove(&self, path: &str) -> Result<(), Error> {
        self.note("remove", path);
        if self.failed_removals.borrow().contains(path) {
            return Err(io("cannot remove"));
        }
        match self.nodes.borrow_mut().remove(path) {
            Some(_) => Ok(()),
            None => Err(io("nothing to remove")),
        }
    }

    fn rename(&self, from: &str, to: &str) -> Result<(), Error> {
        self.note("rename", to);
        self.move_node(from, to)
    }

    fn symlink(&self, target: &str, path: &str) -> Result<(), Error> {
        self.note("symlink", path);
        self.make_new(path, Node::Link(target.to_string()))
    }

    fn copy_link(&self, from: &str, to: &str) -> Result<(), Error> {
        self.note("copy_link", to);
        match self.get(from) {
            Some(Node::Link(target)) => self.make_new(to, Node::Link(target)),
            _ => Err(io("not a link")),
        }
    }

    fn hard_link(&self, first: &str, path: &str) -> Result<(), Error> {
        self.note("hard_link", path);
        match self.get(first) {
            Some(node) => self.make_new(path, node),
            None => Err(io("nothing to link")),
        }
    }

    fn report(&self, text: &str) -> Result<(), Error> {
        if self.fail_report {
            return Err(io("report is closed"));
        }
        self.report.borrow_mut().push_str(text);
        Ok(())
    }

    fn notice(&self, text: &str) {
        self.notices.borrow_mut().push(text.to_string());
    }
}

fn contents(file: &SparseFile) -> Vec<u8> {
    let mut bytes = vec![0u8; file.len as usize];
    for piece in &file.pieces {
        let start = piece.start as usize;
        bytes[start..start + piece.bytes.len()].copy_from_slice(&piece.bytes);
    }
    bytes
}

// ---------------------------------------------------------------------------
// Volumes
// ---------------------------------------------------------------------------

#[test]
fn file_data_records_load_private_id_when_it_differs_from_fsoid() {
    let fsoid = 0x61e1e0;
    let private_id = 0x35748c;
    let inode_records = vec![record(fsoid, APFS_TYPE_INODE)];
    let private_extent = extent_record(private_id, 0, 4096, 0x1234);
    let mut loaded_oid = None;

    let selected = select_file_data_records(fsoid, private_id, &inode_records, |requested_oid| {
        loaded_oid = Some(requested_oid);
        Ok(vec![private_extent.clone()])
    })
    .expect("private-id records should load");

    assert_eq!(loaded_oid, Some(private_id));
    assert_eq!(selected.len(), 1);
    let (oid, ty) = split_obj_id_and_type(u64_at(&selected[0].key, 0).expect("record key"));
    assert_eq!(oid, private_id);
    assert_eq!(ty, APFS_TYPE_FILE_EXTENT);
    let extent = FileExtent::parse(&selected[0].key, &selected[0].val)
        .expect("selected private-id record should be a valid extent");
    assert_eq!(extent.len, 4096);
    assert_eq!(extent.phys_block_num, 0x1234);
}

#[test]
fn file_data_records_reuse_inode_records_when_ids_match() {
    let fsoid = 0x42;
    let inode_records = vec![record(fsoid, APFS_TYPE_FILE_EXTENT)];

    let selected = select_file_data_records(fsoid, fsoid, &inode_records, |_| {
        panic!("matching ids must not trigger another tree lookup")
    })
    .expect("matching ids should use existing records");

    assert!(matches!(selected, Cow::Borrowed(_)));
    assert_eq!(selected.len(), 1);
}

#[test]
fn a_volume_opens_through_its_object_map() {
    let disk = Disk {
        image: Image::new(),
        apsb: superblock(),
    };
    disk.image.warnings.borrow_mut().push("torn".to_string());
    let vol = Volume::open(&disk, 0).unwrap();
    // Block 1 is full of the digit 1, which the image reads as the tree's place.
    assert_eq!(vol.omap_tree_root, b'1' as u64);
    assert_eq!(vol.root_tree_root, b'1' as u64 + 100);
    assert_eq!(vol.max_xid, 30);
    assert_eq!(vol.warnings, vec!["checked", "torn"]);
    assert_eq!(
        Volume::open(&disk, 1).err().unwrap().kind(),
        ErrorKind::ObjectNotFound
    );
}

#[test]
fn a_volume_that_cannot_be_opened_says_why() {
    let open = |change: &dyn Fn(&mut Disk)| -> Error {
        let mut disk = Disk {
            image: Image::new(),
            apsb: superblock(),
        };
        change(&mut disk);
        Volume::open(&disk, 0).err().unwrap()
    };
    assert_eq!(
        open(&|disk| disk.apsb.case_insensitive = true).text(),
        "feature"
    );
    assert_eq!(
        open(&|disk| disk.apsb.omap_oid = 2).text(),
        "volume omap B-tree is not a physical object"
    );
    assert_eq!(
        open(&|disk| disk.apsb.omap_oid = 99).text(),
        "no such block"
    );
    assert_eq!(
        open(&|disk| disk.apsb.root_tree_oid = 404).text(),
        "filesystem root tree (virtual OID 0x194) not in volume omap"
    );
    let deleted = open(&|disk| disk.image.root_flags = OMAP_VAL_DELETED);
    assert_ne!(deleted.kind(), ErrorKind::UnsupportedFeature);
}

#[test]
fn directories_and_links_are_read() {
    let image = Image::new();
    image.dir(1, 2, &[("b", 20, "file"), ("a", 21, "symlink")]);
    image.link(1, 21, "b");
    let vol = image.volume(1, 10);
    let bt = vol.btree();
    let entries = vol.list_dir(&bt, 2).unwrap();
    assert_eq!(entries.len(), 2);
    assert_eq!(entries[0].name, "b");
    assert_eq!(entries[0].file_id, 20);
    assert_eq!(entries[1].type_label, "symlink");
    let records = vol.records(&bt, 21).unwrap();
    assert_eq!(
        Volume::<Image>::symlink_target(&records).unwrap(),
        Some("b".to_string())
    );
    let records = vol.records(&bt, 2).unwrap();
    assert_eq!(Volume::<Image>::symlink_target(&records).unwrap(), None);
    assert!(vol.inode(&bt, 2).unwrap().unwrap().is_dir());
    assert!(vol.inode(&bt, 99).unwrap().is_none());
}

#[test]
fn unreadable_records_are_errors() {
    let image = Image::new();
    image.put(1, 5, Record { key: vec![1, 2], val: Vec::new() });
    image.put(1, 6, record(6, APFS_TYPE_INODE));
    image.put(1, 7, dir_record(7, "ok", 1, "file"));
    image.put(1, 7, record(7, APFS_TYPE_DIR_REC));
    image.broken.borrow_mut().insert((1, 8));
    let vol = image.volume(1, 10);
    let bt = vol.btree();
    assert_eq!(vol.inode(&bt, 5).unwrap_err().kind(), ErrorKind::Corrupt);
    assert_eq!(vol.inode(&bt, 6).unwrap_err().text(), "empty inode");
    assert_eq!(vol.list_dir(&bt, 7).unwrap_err().text(), "short entry");
    assert_eq!(vol.list_dir(&bt, 8).unwrap_err().text(), "bad node");
    assert!(collect_extents(&vol.records(&bt, 5).unwrap()).is_err());
}

#[test]
fn data_of_a_private_stream_says_where_it_was_looked_for() {
    let image = Image::new();
    image.put(1, 5, inode_record(5, 0, 0, 1, 4, 6));
    image.broken.borrow_mut().insert((1, 6));
    let vol = image.volume(1, 10);
    let bt = vol.btree();
    let records = vol.records(&bt, 5).unwrap();
    let inode = vol.inode(&bt, 5).unwrap().unwrap();
    let error = vol
        .file_data_records(&bt, 5, &inode, &records)
        .unwrap_err();
    assert_eq!(
        error.text(),
        "data stream private_id 0x6 for FSOID 0x5: bad node"
    );
}

#[test]
fn sparse_and_dense_output_read_the_same() {
    let image = Image::new();
    image.file(1, 5, 18, &[(0, 4, 1), (8, 4, 0), (12, 4, 3)]);
    let vol = image.volume(1, 10);
    let bt = vol.btree();
    let records = vol.records(&bt, 5).unwrap();
    let mut dense = Vec::new();
    let written = vol.write_file_data(&records, 18, &mut dense).unwrap();
    assert_eq!(dense, b"1111\0\0\0\0\0\0\0\x003333\0\0");
    assert_eq!(written.holes, 3);
    let mut sparse = SparseFile::new();
    let again = vol
        .write_sparse_file_data(&records, 18, &mut sparse)
        .unwrap();
    assert_eq!(sparse.pieces.len(), 2);
    assert_eq!(sparse.len, 18);
    assert_eq!(contents(&sparse), dense);
    assert_eq!(again.data_bytes, written.data_bytes);
}

#[test]
fn sparse_output_keeps_what_came_before_an_error() {
    let image = Image::new();
    image.file(1, 5, 12, &[(0, 4, 1), (8, 4, 1000)]);
    let vol = image.volume(1, 10);
    let bt = vol.btree();
    let records = vol.records(&bt, 5).unwrap();
    let mut sparse = SparseFile::new();
    let error = vol
        .write_sparse_file_data(&records, 12, &mut sparse)
        .unwrap_err();
    assert_eq!(error.text(), "no such block");
    assert_eq!(sparse.pieces[0].bytes, b"1111");
    assert!(sparse.pieces[1].bytes.is_empty());
}

fn stream_data(oid: u64, size: u64) -> Vec<u8> {
    let mut data = oid.to_le_bytes().to_vec();
    data.extend_from_slice(&size.to_le_bytes());
    data.extend_from_slice(&4096u64.to_le_bytes());
    data
}

#[test]
fn attributes_are_read_whole_or_not_at_all() {
    let image = Image::new();
    image.put(1, 5, xattr_record(5, "in", EMBEDDED, b"value"));
    image.put(1, 5, xattr_record(5, "out", STREAM, &stream_data(6, 6)));
    image.put(1, 5, xattr_record(5, "gap", STREAM, &stream_data(7, 6)));
    image.put(1, 5, xattr_record(5, "odd", 0, b""));
    image.put(1, 6, extent_record(6, 0, 8, 2));
    image.put(1, 7, extent_record(7, 4, 4, 2));
    let vol = image.volume(1, 10);
    let bt = vol.btree();
    let records = vol.records(&bt, 5).unwrap();
    let read = |name: &str| {
        let x = Volume::<Image>::xattr(&records, name).unwrap().unwrap();
        vol.read_xattr_data(&bt, &x)
    };
    assert_eq!(read("in").unwrap(), b"value");
    assert_eq!(read("out").unwrap(), b"222233");
    assert_eq!(
        read("gap").unwrap_err().text(),
        "xattr `gap` stream is incomplete: 6 bytes, 1 hole(s), 0 overlap(s), 0 missing byte(s)"
    );
    assert_eq!(
        read("odd").unwrap_err().text(),
        "xattr `odd` has invalid storage flags 0x0"
    );
    assert!(Volume::<Image>::xattr(&records, "none").unwrap().is_none());
}

// ---------------------------------------------------------------------------
// Statistics
// ---------------------------------------------------------------------------

fn stat_text(image: &Image, opts: &Options) -> Result<String, Error> {
    let source = Source::new(image);
    let vol = image.volume(1, 10);
    let bt = vol.btree();
    stat(&source, &vol, &bt, opts).map(|found| found.result.to_compact_string())
}

fn wanting(fsoid: u64) -> Options {
    Options {
        fsoid: Some(fsoid),
        ..Options::default()
    }
}

#[test]
fn stat_tells_of_a_file_and_its_extents() {
    let image = Image::new();
    image.file(1, 5, 8, &[(0, 4, 1), (4, 4, 2)]);
    let opts = Options {
        extents: true,
        records: true,
        ..wanting(5)
    };
    let text = stat_text(&image, &opts).unwrap();
    assert!(text.starts_with("{\"fsoid\":\"0x5\",\"inode\":{\"parent_id\":2,\"private_id\":5,"));
    assert!(text.contains("\"internal_flags\":\"0x8000\",\"bsd_flags\":\"0x20\""));
    assert!(text.contains("\"create_time\":\"time 1\",\"create_time_raw\":1"));
    assert!(!text.contains("change_time"));
    assert!(text.contains(
        "\"recoverability\":{\"status\":\"ok\",\"size\":8,\"has_extents\":true,\"has_holes\":false,\"has_overlaps\":false}"
    ));
    assert!(text.contains(
        "\"extents\":[{\"logical_addr\":0,\"len\":4,\"phys_block_num\":1,\"hole\":false},{\"logical_addr\":4,\"len\":4,\"phys_block_num\":2,\"hole\":false}],\"extents_total_bytes\":8"
    ));
    assert!(text.contains(
        "\"records\":[{\"obj_id\":\"0x5\",\"type\":\"inode\",\"key_len\":8,\"val_len\":19,\"key_hex\":\"0500000000000030\"}"
    ));
}

#[test]
fn stat_grades_what_can_be_recovered() {
    let grade = |flags: u8, size: u64, extents: &[(u64, u64, u64)]| {
        let image = Image::new();
        image.put(1, 5, inode_record(5, 0, flags, 1, size, 5));
        for (addr, len, block) in extents {
            image.put(1, 5, extent_record(5, *addr, *len, *block));
        }
        let text = stat_text(&image, &wanting(5)).unwrap();
        let at = text.find("\"status\":\"").unwrap() + 10;
        text[at..at + text[at..].find('"').unwrap()].to_string()
    };
    assert_eq!(grade(0, 0, &[]), "ok");
    assert_eq!(grade(0, 4, &[]), "no-extents");
    assert_eq!(grade(0, 8, &[(0, 4, 1)]), "partial");
    assert_eq!(grade(0, 8, &[(0, 8, 1), (4, 4, 2)]), "ok");
    assert_eq!(grade(0, 12, &[(0, 8, 1), (4, 4, 2), (8, 4, 3)]), "partial");
    assert_eq!(grade(SPARSE, 8, &[(0, 4, 1)]), "ok-sparse");
    assert_eq!(grade(SPARSE, 8, &[]), "ok-sparse");
    assert_eq!(grade(SPARSE, 4, &[(0, 4, 1)]), "ok");
}

fn compressed_attribute(compression_type: u32, size: u64, payload: &[u8]) -> Vec<u8> {
    let mut data = 0x636d_7066u32.to_le_bytes().to_vec();
    data.extend_from_slice(&compression_type.to_le_bytes());
    data.extend_from_slice(&size.to_le_bytes());
    data.extend_from_slice(payload);
    data
}

fn compressed_file(image: &Image, oid: u64, compression_type: u32, size: u64, payload: &[u8]) {
    image.put(1, oid, inode_record(oid, 0, COMPRESSED, 1, size, oid));
    let data = compressed_attribute(compression_type, payload.len() as u64, payload);
    image.put(
        1,
        oid,
        xattr_record(oid, "com.apple.decmpfs", EMBEDDED, &data),
    );
}

#[test]
fn stat_tells_of_compression() {
    let image = Image::new();
    compressed_file(&image, 5, 1, 5, b"hello");
    let opts = Options {
        xattrs: true,
        ..wanting(5)
    };
    let text = stat_text(&image, &opts).unwrap();
    assert!(text.contains(
        "\"recoverability\":{\"status\":\"ok-compressed\",\"size\":5,\"compression_type\":1,\"compression_storage\":\"embedded\",\"compression_codec\":\"none\",\"compressed_size_matches_inode\":true}"
    ));
    assert!(text.contains(
        "\"xattrs\":[{\"name\":\"com.apple.decmpfs\",\"embedded\":true,\"stream\":false,\"data_len\":21,\"compression_type\":1,\"compression_storage\":\"embedded\",\"compression_codec\":\"none\",\"uncompressed_size\":5,\"data_prefix_hex\":\"66706d6301000000050000000000000068656c6c6f\"}]"
    ));
    image.put(1, 6, inode_record(6, 0, COMPRESSED, 1, 5, 6));
    assert_eq!(
        stat_text(&image, &wanting(6)).unwrap_err().text(),
        "compressed inode has no com.apple.decmpfs xattr"
    );
}

#[test]
fn stat_tells_of_streams_and_other_objects() {
    let image = Image::new();
    image.put(1, 5, inode_record(5, 1, 0, 1, 0, 5));
    image.put(1, 5, xattr_record(5, "fork", STREAM, &stream_data(9, 10)));
    let opts = Options {
        xattrs: true,
        ..wanting(5)
    };
    let text = stat_text(&image, &opts).unwrap();
    assert!(text.contains("\"reason\":\"directory (recurse to recover contents)\""));
    assert!(text.contains(
        "\"stream_id\":\"0x9\",\"stream_size\":10,\"stream_allocated_size\":4096"
    ));
    image.link(1, 6, "x");
    assert!(stat_text(&image, &wanting(6))
        .unwrap()
        .contains("\"reason\":\"symlink\""));
    image.put(1, 7, extent_record(7, 0, 4, 1));
    assert_eq!(
        stat_text(&image, &wanting(7)).unwrap(),
        "{\"fsoid\":\"0x7\",\"inode\":null}"
    );
}

#[test]
fn stat_needs_an_object() {
    let image = Image::new();
    assert_eq!(
        stat_text(&image, &Options::default()).unwrap_err().text(),
        "`stat` needs `--path <p>` or `--fsoid <id>`"
    );
    let error = stat_text(&image, &wanting(5)).unwrap_err();
    assert_eq!(error.kind(), ErrorKind::ObjectNotFound);
    assert_eq!(error.text(), "no records for FSOID 0x5");
    let path = Options {
        path: Some("/nowhere".to_string()),
        ..wanting(5)
    };
    assert_eq!(
        stat_text(&image, &path).unwrap_err().kind(),
        ErrorKind::PathNotFound
    );
}

#[test]
fn stat_of_an_encrypted_volume_reads_no_data() {
    let image = Image::new();
    image.put(1, 5, inode_record(5, 0, 0, 1, 4, 6));
    image.broken.borrow_mut().insert((1, 6));
    let source = Source::new(&image);
    let mut vol = image.volume(1, 10);
    vol.apsb.encrypted = true;
    let bt = vol.btree();
    let found = stat(&source, &vol, &bt, &wanting(5)).unwrap();
    assert!(found
        .result
        .to_compact_string()
        .contains("\"status\":\"encrypted\""));
    let opts = Options {
        extents: true,
        ..wanting(5)
    };
    assert!(stat(&source, &vol, &bt, &opts).is_err());
}

#[test]
fn stat_shows_lines_to_a_person() {
    let image = Image::new();
    image.file(1, 5, 8, &[]);
    let vol = image.volume(1, 10);
    let inode = vol.inode(&vol.btree(), 5).unwrap();
    assert_eq!(
        stat_lines(5, &inode, &Some("then".to_string())),
        "FSOID 0x5\n  mode 0o100644 uid 501 gid 20\n  size 8 bytes\n  modified then\n"
    );
    assert_eq!(stat_lines(5, &None, &None), "FSOID 0x5\n");
}

#[test]
fn record_types_have_names() {
    assert_eq!(jrec_type_name(APFS_TYPE_XATTR), "xattr");
    assert_eq!(jrec_type_name(13), "file_info");
    assert_eq!(jrec_type_name(0), "unknown");
    assert_eq!(jrec_type_name(14), "unknown");
    assert_eq!(hex(&vec![0, 0x0f, 0xa0]), "000fa0");
}

// ---------------------------------------------------------------------------
// Recovery of files
// ---------------------------------------------------------------------------

#[test]
fn safe_name_rejects_traversal() {
    assert!(is_safe_name("file.txt"));
    assert!(!is_safe_name(".."));
    assert!(!is_safe_name("a/b"));
    assert!(!is_safe_name(""));
}

#[test]
fn unsafe_names_are_all_refused() {
    assert!(!is_safe_name("."));
    assert!(!is_safe_name("a\0b"));
    assert!(is_safe_name("..."));
    assert!(is_safe_name(" "));
    assert_eq!(join_path("dir", "a"), "dir/a");
    assert_eq!(join_path("dir/", "a"), "dir/a");
    assert_eq!(join_path("", "a"), "a");
}

#[test]
fn child_error_is_recorded_only_in_best_effort_mode() {
    let mut results = Vec::new();
    let mut opts = Options {
        best_effort: true,
        ..Options::default()
    };
    record_child_error_or_fail(
        &opts,
        &mut results,
        "out/child",
        0x2a,
        Error::new(ErrorKind::Corrupt, "bad child record".to_string()),
    )
    .expect("best-effort should continue");

    assert_eq!(results.len(), 1);
    assert_eq!(results[0].path, "out/child");
    assert_eq!(results[0].fsoid, 0x2a);
    assert_eq!(results[0].status, "error");
    assert_eq!(results[0].note.as_deref(), Some("bad child record"));

    opts.best_effort = false;
    let error = record_child_error_or_fail(
        &opts,
        &mut results,
        "out/sibling",
        0x2b,
        Error::new(ErrorKind::Io, "read failed".to_string()),
    )
    .expect_err("normal mode should fail fast");
    assert_eq!(error.kind(), ErrorKind::Io);
    assert_eq!(results.len(), 1, "fail-fast mode must not add a result");
}

#[test]
fn non_sparse_zero_fill_or_overlap_is_partial() {
    let no_extents = Written {
        bytes: 4096,
        data_bytes: 0,
        holes: 1,
        overlaps: 0,
        missing: 0,
    };
    assert_eq!(
        recovery_status(4096, false, Some(0), &no_extents),
        "partial"
    );

    let overlap = Written {
        bytes: 4096,
        data_bytes: 4096,
        holes: 0,
        overlaps: 1,
        missing: 0,
    };
    assert_eq!(
        recovery_status(4096, false, Some(4096), &overlap),
        "partial"
    );
}

#[test]
fn sparse_hole_can_be_recovered() {
    let sparse = Written {
        bytes: 4096,
        data_bytes: 0,
        holes: 1,
        overlaps: 0,
        missing: 0,
    };
    assert_eq!(recovery_status(4096, true, Some(0), &sparse), "recovered");
}

#[test]
fn allocated_sparse_without_data_is_partial() {
    let missing_data = Written {
        bytes: 4096,
        data_bytes: 0,
        holes: 1,
        overlaps: 0,
        missing: 0,
    };
    assert_eq!(
        recovery_status(4096, true, Some(4096), &missing_data),
        "partial"
    );

    let sparse_with_data = Written {
        data_bytes: 1,
        ..missing_data
    };
    assert_eq!(
        recovery_status(4096, true, Some(4096), &sparse_with_data),
        "recovered"
    );
}

#[test]
fn short_output_is_partial() {
    let short = Written {
        bytes: 10,
        data_bytes: 10,
        holes: 0,
        overlaps: 0,
        missing: 2,
    };
    assert_eq!(recovery_status(12, true, None, &short), "partial");
    assert_eq!(recovery_status(0, false, None, &Written::default()), "recovered");
}

fn recover_to(
    image: &Image,
    disc: &Disc,
    opts: &Options,
) -> Result<apfsrelic::recover::Recovered, Error> {
    let source = Source::new(image);
    let vol = image.volume(1, 10);
    let bt = vol.btree();
    let codec = NoCodec;
    let recovery = Recovery {
        vol: &vol,
        bt: &bt,
        codec: &codec,
        opts,
    };
    recovery.recover(&source, &mut Journal::new(disc))
}

fn to(fsoid: u64, output: &str) -> Options {
    Options {
        output: Some(output.to_string()),
        ..wanting(fsoid)
    }
}

#[test]
fn a_file_is_installed_in_one_step() {
    let image = Image::new();
    image.file(1, 5, 6, &[(0, 8, 1)]);
    let disc = Disc::new();
    let done = recover_to(&image, &disc, &to(5, "out/file")).unwrap();
    assert_eq!(done.results.len(), 1);
    assert_eq!(done.results[0].status, "recovered");
    assert_eq!(done.results[0].bytes, 6);
    assert_eq!(done.results[0].note, None);
    assert!(!done.folder && !done.partial());
    assert_eq!(disc.get("out/file"), Some(Node::File(b"111122".to_vec())));
    assert_eq!(disc.names(), vec!["out/file"]);
    assert_eq!(
        done.to_json(false).to_compact_string(),
        "{\"type\":\"file\",\"dry_run\":false,\"files_total\":1,\"bytes_total\":6,\"files\":[{\"path\":\"out/file\",\"fsoid\":\"0x5\",\"status\":\"recovered\",\"bytes\":6}]}"
    );
    assert_eq!(
        done.results[0].line(),
        "recovered  out/file  6 bytes\n"
    );
}

#[test]
fn a_file_with_a_gap_is_partial_and_says_so() {
    let image = Image::new();
    image.file(1, 5, 8, &[(0, 4, 1)]);
    let disc = Disc::new();
    let done = recover_to(&image, &disc, &to(5, "f")).unwrap();
    assert_eq!(done.results[0].status, "partial");
    assert_eq!(done.results[0].note.as_deref(), Some("1 hole(s)"));
    assert_eq!(done.results[0].line(), "partial  f  8 bytes  (1 hole(s))\n");
    assert!(done.partial());
}

#[test]
fn a_sparse_file_is_written_as_one() {
    let image = Image::new();
    image.put(1, 5, inode_record(5, 0, SPARSE, 1, 12, 5));
    image.put(1, 5, extent_record(5, 4, 4, 3));
    let disc = Disc::new();
    let done = recover_to(&image, &disc, &to(5, "f")).unwrap();
    assert_eq!(done.results[0].status, "recovered");
    assert_eq!(
        disc.get("f"),
        Some(Node::File(b"\0\0\0\x003333\0\0\0\0".to_vec()))
    );
}

#[test]
fn a_failed_write_leaves_nothing_behind() {
    let image = Image::new();
    image.file(1, 5, 4, &[(0, 4, 1)]);
    image.file(1, 6, 4, &[(0, 4, 1000)]);
    let mut disc = Disc::new();
    disc.fail_fill = true;
    assert_eq!(
        recover_to(&image, &disc, &to(5, "f")).err().unwrap().text(),
        "disk is full"
    );
    assert!(disc.names().is_empty());
    disc.fail_fill = false;
    disc.fail_install = true;
    assert_eq!(
        recover_to(&image, &disc, &to(5, "f")).err().unwrap().text(),
        "cannot rename"
    );
    assert!(disc.names().is_empty());
    disc.fail_install = false;
    assert_eq!(
        recover_to(&image, &disc, &to(6, "f")).err().unwrap().text(),
        "no such block"
    );
    assert!(disc.names().is_empty());
    let best = Options {
        best_effort: true,
        ..to(6, "f")
    };
    let done = recover_to(&image, &disc, &best).unwrap();
    assert_eq!(done.results[0].status, "error");
    assert_eq!(done.results[0].note.as_deref(), Some("no such block"));
}

#[test]
fn atomic_write_removes_temp_file_when_writer_fails() {
    let mut disc = Disc::new();
    disc.fail_fill = true;
    let result = write_bytes_atomic(
        &mut Journal::new(&disc),
        "dir/output.bin",
        Ok(b"partial".to_vec()),
    );
    assert!(result.is_err());
    assert!(!disc.reaches("dir/output.bin"));
    assert_eq!(
        disc.names().len(),
        0,
        "temporary file must be removed after a failed write"
    );
}

#[test]
fn atomic_write_never_follows_a_stale_temp_symlink() {
    let disc = Disc::new();
    let stale = format!("dir/_com.apfsrelic.recover_{}_0", disc.process_id());
    disc.put("dir/victim", Node::File(b"do not modify".to_vec()));
    disc.put(&stale, Node::Link("dir/victim".to_string()));

    write_bytes_atomic(&mut Journal::new(&disc), "dir/output.bin", Ok(b"recovered".to_vec()))
        .expect("use a create-new collision suffix");

    assert_eq!(
        disc.get("dir/victim"),
        Some(Node::File(b"do not modify".to_vec()))
    );
    assert_eq!(
        disc.get("dir/output.bin"),
        Some(Node::File(b"recovered".to_vec()))
    );
    assert_eq!(disc.get(&stale), Some(Node::Link("dir/victim".to_string())));
}

#[test]
fn no_overwrite_rejects_a_broken_symlink() {
    let image = Image::new();
    let vol = image.volume(1, 10);
    let bt = vol.btree();
    let disc = Disc::new();
    disc.put("dir/output.bin", Node::Link("dir/missing".to_string()));
    let recovery = Recovery {
        vol: &vol,
        bt: &bt,
        codec: &NoCodec,
        opts: &Options::default(),
    };
    let error = recovery
        .guard_overwrite(&mut Journal::new(&disc), "dir/output.bin")
        .expect_err("broken symlink still occupies the destination name");
    assert_eq!(error.kind(), ErrorKind::Usage);
}

#[test]
fn temporary_names_run_out() {
    let disc = Disc::new();
    for n in 0..1024 {
        disc.put(&format!("_com.apfsrelic.recover_77_{n}"), Node::Dir);
    }
    assert_eq!(
        create_temp_file(&mut Journal::new(&disc), "g").err().unwrap().text(),
        "could not allocate a temporary file beside `g`"
    );
}

#[test]
fn an_occupied_destination_is_kept() {
    let image = Image::new();
    image.file(1, 5, 4, &[(0, 4, 1)]);
    let disc = Disc::new();
    disc.put("f", Node::Link("missing".to_string()));
    let error = recover_to(&image, &disc, &to(5, "f")).err().unwrap();
    assert_eq!(error.kind(), ErrorKind::Usage);
    assert_eq!(
        error.text(),
        "`f` already exists; pass --overwrite to replace it"
    );
    assert_eq!(disc.get("f"), Some(Node::Link("missing".to_string())));
    let over = Options {
        overwrite: true,
        ..to(5, "f")
    };
    recover_to(&image, &disc, &over).unwrap();
    assert_eq!(disc.get("f"), Some(Node::File(b"1111".to_vec())));
    assert!(guard_standing(false, "f", Ok(Standing::Nothing)).is_ok());
    assert_eq!(
        guard_standing(true, "f", Err(io("x"))).unwrap_err().text(),
        "x"
    );
}

#[test]
fn without_an_output_the_bytes_are_streamed() {
    let image = Image::new();
    image.file(1, 5, 4, &[(0, 4, 1)]);
    image.file(1, 6, 8, &[(0, 4, 2), (4, 4, 1000)]);
    let disc = Disc::new();
    let done = recover_to(&image, &disc, &wanting(5)).unwrap();
    assert_eq!(done.results[0].path, "-");
    assert_eq!(*disc.stream.borrow(), b"1111");
    assert!(recover_to(&image, &disc, &wanting(6)).is_err());
    assert_eq!(*disc.stream.borrow(), b"11112222");
    assert!(disc.names().is_empty());
}

#[test]
fn a_dry_run_writes_nothing() {
    let image = Image::new();
    image.file(1, 5, 4, &[(0, 4, 1)]);
    image.link(1, 6, "target");
    let disc = Disc::new();
    let dry = Options {
        dry_run: true,
        ..to(5, "f")
    };
    let done = recover_to(&image, &disc, &dry).unwrap();
    assert_eq!(done.results[0].status, "dry-run");
    assert_eq!(done.results[0].bytes, 4);
    let dry = Options {
        dry_run: true,
        ..to(6, "l")
    };
    let done = recover_to(&image, &disc, &dry).unwrap();
    assert_eq!(done.results[0].note.as_deref(), Some("symlink -> target"));
    assert!(disc.names().is_empty());
}

#[test]
fn a_link_is_made_anew() {
    let image = Image::new();
    image.link(1, 6, "été");
    let disc = Disc::new();
    let done = recover_to(&image, &disc, &to(6, "l")).unwrap();
    assert_eq!(done.results[0].status, "recovered");
    assert_eq!(done.results[0].bytes, 5);
    assert_eq!(disc.get("l"), Some(Node::Link("été".to_string())));
}

#[test]
fn compressed_files_are_decoded_or_left_to_the_kernel() {
    let image = Image::new();
    compressed_file(&image, 5, 1, 5, b"hello");
    compressed_file(&image, 6, 8, 0, b"");
    compressed_file(&image, 7, 1, 6, b"hello");
    compressed_file(&image, 8, 42, 0, b"");
    image.put(1, 9, inode_record(9, 0, COMPRESSED, 1, 5, 9));
    let mut disc = Disc::new();
    let done = recover_to(&image, &disc, &to(5, "a")).unwrap();
    assert_eq!(done.results[0].note.as_deref(), Some("decmpfs type 1 embedded"));
    assert_eq!(disc.get("a"), Some(Node::File(b"hello".to_vec())));
    recover_to(&image, &disc, &wanting(5)).unwrap();
    assert_eq!(*disc.stream.borrow(), b"hello");

    let text = |fsoid: u64, opts: &Options| {
        let _ = fsoid;
        recover_to(&image, &Disc::new(), opts).err().unwrap().text()
    };
    assert_eq!(
        text(6, &wanting(6)),
        "resource-fork decmpfs recovery requires --output on macOS"
    );
    assert_eq!(
        text(6, &to(6, "b")),
        "decmpfs type 8 has no `com.apple.ResourceFork` xattr"
    );
    assert_eq!(
        text(7, &to(7, "b")),
        "decmpfs size 5 does not match inode logical size 6"
    );
    assert_eq!(
        text(8, &wanting(8)),
        "decmpfs type 42 requires --output on macOS"
    );
    assert_eq!(
        text(8, &to(8, "b")),
        "kernel-verified decmpfs recovery requires macOS"
    );
    assert_eq!(
        text(9, &to(9, "b")),
        "compressed FSOID 0x9 has no `com.apple.decmpfs` xattr"
    );

    disc.kernel = true;
    let done = recover_to(&image, &disc, &to(5, "k")).unwrap();
    assert_eq!(
        done.results[0].note.as_deref(),
        Some("decmpfs type 1 kernel-verified")
    );
    assert_eq!(disc.get("k"), Some(Node::File(b"kernel:hello".to_vec())));
    image.put(
        1,
        6,
        xattr_record(6, "com.apple.ResourceFork", EMBEDDED, b"fork"),
    );
    let done = recover_to(&image, &disc, &to(6, "r")).unwrap();
    assert_eq!(
        done.results[0].note.as_deref(),
        Some("decmpfs type 8 resource-fork")
    );
    assert_eq!(disc.get("r"), Some(Node::File(b"kernel:fork".to_vec())));
    let done = recover_to(&image, &disc, &to(8, "u")).unwrap();
    assert_eq!(
        done.results[0].note.as_deref(),
        Some("decmpfs type 42 kernel-verified")
    );
}

#[test]
fn a_file_that_the_kernel_decodes_wrongly_is_refused() {
    let back = |bytes, more| ReadBack { bytes, more };
    assert!(check_read_back(back(5, false), 5).is_ok());
    assert_eq!(
        check_read_back(back(4, false), 5).unwrap_err().text(),
        "kernel decoded decmpfs to 4 bytes, expected 5"
    );
    assert_eq!(
        check_read_back(back(5, true), 5).unwrap_err().text(),
        "kernel decoded decmpfs beyond its declared size"
    );
}

#[test]
fn an_encrypted_volume_is_refused() {
    let opts = Options::default();
    assert_eq!(
        refuse_encrypted(true, &opts).unwrap_err().kind(),
        ErrorKind::EncryptedUnsupported
    );
    assert!(refuse_encrypted(false, &opts).is_ok());
    let raw = Options {
        raw_extents: true,
        ..Options::default()
    };
    assert!(refuse_encrypted(true, &raw).is_ok());
}

#[test]
fn recovery_needs_an_object_and_a_folder_needs_a_place() {
    let image = Image::new();
    image.dir(1, 2, &[]);
    image.put(1, 3, extent_record(3, 0, 4, 1));
    let disc = Disc::new();
    let text = |opts: &Options| recover_to(&image, &disc, opts).err().unwrap().text();
    assert_eq!(
        text(&Options::default()),
        "`recover` needs `--path <p>` or `--fsoid <id>`"
    );
    assert_eq!(text(&wanting(2)), "folder recovery requires `--output <dir>`");
    assert_eq!(text(&wanting(3)), "no inode for FSOID 0x3");
}

// ---------------------------------------------------------------------------
// Recovery of folders
// ---------------------------------------------------------------------------

#[test]
fn a_folder_is_recovered_with_all_it_holds() {
    let image = Image::new();
    image.dir(
        1,
        2,
        &[
            ("a", 10, "file"),
            ("sub", 3, "dir"),
            ("..", 10, "file"),
            ("gone", 11, "file"),
        ],
    );
    image.file(1, 10, 4, &[(0, 4, 1)]);
    image.dir(1, 3, &[("l", 12, "symlink")]);
    image.link(1, 12, "../a");
    let disc = Disc::new();
    let done = recover_to(&image, &disc, &to(2, "out")).unwrap();
    assert!(done.folder);
    let told: Vec<(&str, &str)> = done
        .results
        .iter()
        .map(|r| (r.path.as_str(), r.status))
        .collect();
    assert_eq!(
        told,
        vec![
            ("out/a", "recovered"),
            ("out/sub/l", "recovered"),
            ("out/..", "error"),
            ("out/gone", "error"),
        ]
    );
    assert_eq!(
        done.results[2].note.as_deref(),
        Some("unsafe entry name; skipped")
    );
    assert_eq!(done.results[3].note.as_deref(), Some("no inode"));
    assert_eq!(
        disc.names(),
        vec!["out", "out/a", "out/sub", "out/sub/l"]
    );
}

#[test]
fn hard_links_are_kept() {
    let image = Image::new();
    image.dir(1, 2, &[("a", 10, "file"), ("b", 10, "file")]);
    image.put(1, 10, inode_record(10, 0, 0, 2, 4, 10));
    image.put(1, 10, extent_record(10, 0, 4, 5));
    let disc = Disc::new();
    let done = recover_to(&image, &disc, &to(2, "out")).unwrap();
    assert_eq!(done.results[1].note.as_deref(), Some("hardlink"));
    assert_eq!(done.results[1].bytes, 0);
    assert_eq!(disc.get("out/b"), Some(Node::File(b"5555".to_vec())));

    let mut links = HardlinkState::new();
    links.insert(1, "first".to_string());
    links.insert(1, "second".to_string());
    assert_eq!(links.get(1).map(String::as_str), Some("first"));
    assert!(links.get(2).is_none());
}

#[test]
fn existing_files_of_a_folder_are_skipped() {
    let image = Image::new();
    image.dir(1, 2, &[("a", 10, "file"), ("b", 11, "file")]);
    image.file(1, 10, 4, &[(0, 4, 1)]);
    image.file(1, 11, 4, &[(0, 4, 2)]);
    let disc = Disc::new();
    disc.put("out/a", Node::File(b"old".to_vec()));
    let done = recover_to(&image, &disc, &to(2, "out")).unwrap();
    assert_eq!(done.results[0].status, "skipped-exists");
    assert_eq!(disc.get("out/a"), Some(Node::File(b"old".to_vec())));
    assert_eq!(disc.get("out/b"), Some(Node::File(b"2222".to_vec())));
    let over = Options {
        overwrite: true,
        ..to(2, "out")
    };
    recover_to(&image, &disc, &over).unwrap();
    assert_eq!(disc.get("out/a"), Some(Node::File(b"1111".to_vec())));
}

#[test]
fn an_error_ends_a_folder_unless_effort_is_asked_for() {
    let image = Image::new();
    image.dir(1, 2, &[("bad", 10, "file"), ("sub", 3, "dir"), ("ok", 11, "file")]);
    image.broken.borrow_mut().insert((1, 10));
    image.put(1, 3, inode_record(3, 1, 0, 1, 0, 3));
    image.put(1, 3, record(3, APFS_TYPE_DIR_REC));
    image.file(1, 11, 4, &[(0, 4, 2)]);
    let disc = Disc::new();
    assert!(recover_to(&image, &disc, &to(2, "out")).is_err());
    let best = Options {
        best_effort: true,
        ..to(2, "out")
    };
    let done = recover_to(&image, &disc, &best).unwrap();
    let told: Vec<&str> = done.results.iter().map(|r| r.status).collect();
    assert_eq!(told, vec!["error", "error", "recovered"]);
    assert_eq!(done.results[0].note.as_deref(), Some("bad node"));
    assert_eq!(done.results[1].note.as_deref(), Some("short entry"));
    assert!(done.partial());
}

#[test]
fn folders_do_not_nest_without_end() {
    let image = Image::new();
    image.dir(1, 2, &[("d", 2, "dir")]);
    let disc = Disc::new();
    let done = recover_to(&image, &disc, &to(2, "o")).unwrap();
    assert_eq!(done.results.len(), 1);
    assert_eq!(
        done.results[0].note.as_deref(),
        Some("max directory depth exceeded")
    );
    assert_eq!(done.results[0].path.matches("/d").count(), 257);
    let progress = Progress::new();
    assert!(progress.results.is_empty());
}

// ---------------------------------------------------------------------------
// History
// ---------------------------------------------------------------------------

fn history(image: &Image) -> Source {
    // Snapshot 10 has root 1, snapshot 20 has root 2.
    image.dir(1, 2, &[("kept", 10, "file"), ("gone", 11, "file"), ("d", 3, "dir")]);
    image.dir(1, 3, &[("l", 12, "symlink")]);
    image.file(1, 10, 4, &[]);
    image.file(1, 11, 9, &[]);
    image.link(1, 12, "kept");
    image.dir(2, 2, &[("kept", 10, "file"), ("d", 3, "dir")]);
    image.file(2, 10, 5, &[]);
    image.dir(2, 3, &[("l", 12, "symlink")]);
    image.link(2, 12, "kept");
    let mut source = Source::new(image);
    source.snapshot(10, 1);
    source.snapshot(20, 2);
    source.path(1, "/home", 2, "dir");
    source.path(2, "/home", 2, "dir");
    source
}

fn unite_quietly(
    source: &Source,
    opts: &Options,
    template: &str,
    all: Vec<SnapshotInfo>,
) -> Result<Union, Error> {
    unite::<Image, Source, Disc>(
        &source.image.volume(2, 30),
        source,
        &mut Journal::new(&Disc::new()),
        opts,
        template,
        all,
    )
}

#[test]
fn the_union_names_what_was_deleted() {
    let image = Image::new();
    let source = history(&image);
    let disc = Disc::new();
    let union = unite::<Image, Source, Disc>(
        &image.volume(2, 30),
        &source,
        &mut Journal::new(&disc),
        &Options::default(),
        "/home",
        vec![info(20, "new"), info(10, "old")],
    )
    .unwrap();
    assert_eq!(
        *disc.notices.borrow(),
        vec![
            "history-union: scanning 1/2 snapshot \"old\" xid=0xa root=\"/home\"",
            "history-union: scanning 2/2 snapshot \"new\" xid=0x14 root=\"/home\"",
        ]
    );
    assert!(union.complete());
    assert_eq!(union.union_paths, 4);
    let told: Vec<(&str, LatestPresence, Option<u64>)> = union
        .rows
        .iter()
        .map(|row| {
            (
                row.entry.relative_path.as_str(),
                row.entry.latest_presence,
                row.logical_bytes,
            )
        })
        .collect();
    assert_eq!(
        told,
        vec![
            ("d/l", LatestPresence::Present, Some(4)),
            ("gone", LatestPresence::Absent, Some(9)),
            ("kept", LatestPresence::Present, Some(5)),
        ]
    );
    assert_eq!(
        union.line(),
        "history-union: snapshots=2 union_paths=4 leaf_rows=3 historical_deleted=1 unknown=0 path_conflicts=0 scan_errors=0 metadata_errors=0"
    );
    let text = union.manifest::<Image>(ManifestFormat::Jsonl).unwrap();
    assert_eq!(text.lines().count(), 3);
    assert!(text.contains("\"snapshot_create_time\":\"time 10\""));
}

#[test]
fn an_unreadable_directory_proves_no_deletion() {
    let image = Image::new();
    let source = history(&image);
    image.broken.borrow_mut().insert((2, 3));
    let all = || vec![info(10, "old"), info(20, "new")];
    let error = unite_quietly(&source, &Options::default(), "/home", all())
        .err()
        .unwrap();
    assert_eq!(error.text(), "snapshot \"new\" path \"/home/d\": bad node");
    let best = Options {
        best_effort: true,
        ..Options::default()
    };
    let union = unite_quietly(&source, &best, "/home", all()).unwrap();
    assert!(!union.complete());
    let link = union
        .rows
        .iter()
        .find(|row| row.entry.relative_path == "d/l")
        .unwrap();
    assert_eq!(link.entry.latest_presence, LatestPresence::Unknown);
    assert_eq!(
        union.errors[0].line(),
        "history-union: scan-error snapshot=\"new\" xid=0x14 source=\"/home/d\" relative_prefix=\"d\" code=corrupt message=bad node"
    );
}

#[test]
fn a_missing_latest_root_is_an_error_and_an_older_one_is_not() {
    let image = Image::new();
    let mut source = history(&image);
    source.paths.remove(&(1, "/home".to_string()));
    let scan = scan_all::<Image, Source, Disc>(
        &source,
        &mut Journal::new(&Disc::new()),
        &vec![info(10, "old"), info(20, "new")],
        "/home",
        &Options::default(),
    )
    .unwrap();
    assert_eq!(scan.union.len(), 3);
    source.paths.remove(&(2, "/home".to_string()));
    let error = scan_all::<Image, Source, Disc>(
        &source,
        &mut Journal::new(&Disc::new()),
        &vec![info(20, "new")],
        "/home",
        &Options::default(),
    )
    .err()
    .unwrap();
    assert_eq!(error.kind(), ErrorKind::PathNotFound);
    source.path(2, "/home", 10, "file");
    let error = scan_all::<Image, Source, Disc>(
        &source,
        &mut Journal::new(&Disc::new()),
        &vec![info(20, "new")],
        "/home",
        &Options::default(),
    )
    .err()
    .unwrap();
    assert_eq!(
        error.text(),
        "snapshot \"new\" path \"/home\": history root is a file, not a directory"
    );
}

#[test]
fn scanning_stops_at_cycles_and_unsafe_names() {
    let image = Image::new();
    image.dir(1, 2, &[("again", 2, "dir"), ("a/b", 9, "file")]);
    let mut source = Source::new(&image);
    source.snapshot(10, 1);
    source.path(1, "/", 2, "dir");
    let best = Options {
        best_effort: true,
        ..Options::default()
    };
    let scan = scan_all::<Image, Source, Disc>(
        &source,
        &mut Journal::new(&Disc::new()),
        &vec![info(10, "s")],
        "/",
        &best,
    )
    .unwrap();
    let told: Vec<String> = scan.errors.iter().map(|e| e.error.text()).collect();
    assert_eq!(
        told,
        vec!["directory cycle detected", "unsafe directory-entry name"]
    );
    assert_eq!(scan.errors[0].source_path, "/again");
    assert_eq!(scan.latest_incomplete, vec!["again", "a/b"]);
    assert!(safe_component("a") && !safe_component("a/b") && !safe_component(""));
    assert_eq!(join_relative("", "a"), "a");
    assert_eq!(join_relative("a", "b"), "a/b");
    assert_eq!(join_absolute("/", "a"), "/a");
    assert_eq!(join_absolute("/a", "b"), "/a/b");
}

#[test]
fn sizes_that_cannot_be_read_are_noted_or_end_the_union() {
    let image = Image::new();
    let source = history(&image);
    image.broken.borrow_mut().insert((1, 11));
    let all = || vec![info(10, "old"), info(20, "new")];
    let error = unite_quietly(&source, &Options::default(), "/home", all())
        .err()
        .unwrap();
    assert_eq!(
        error.text(),
        "snapshot \"old\" source \"/home/gone\": bad node"
    );
    let best = Options {
        best_effort: true,
        ..Options::default()
    };
    let union = unite_quietly(&source, &best, "/home", all()).unwrap();
    assert_eq!(union.rows[1].metadata_error.as_deref(), Some("bad node"));
    assert_eq!(union.rows[1].logical_bytes, None);
    assert!(!union.complete());
}

#[test]
fn snapshots_are_chosen_up_to_a_boundary() {
    let all = || vec![info(30, "c"), info(10, "a"), info(20, "b")];
    let xids = |opts: &Options| -> Vec<u64> {
        select_snapshots(all(), opts)
            .unwrap()
            .iter()
            .map(|s| s.xid)
            .collect()
    };
    assert_eq!(xids(&Options::default()), vec![10, 20, 30]);
    let by_xid = Options {
        snapshot_xid: Some(20),
        ..Options::default()
    };
    assert_eq!(xids(&by_xid), vec![10, 20]);
    let by_name = Options {
        snapshot: Some("a".to_string()),
        ..Options::default()
    };
    assert_eq!(xids(&by_name), vec![10]);
    let unknown = Options {
        snapshot_xid: Some(21),
        ..Options::default()
    };
    assert_eq!(
        select_snapshots(all(), &unknown).unwrap_err().text(),
        "no snapshot with xid 0x15"
    );
    let unnamed = Options {
        snapshot: Some("z".to_string()),
        ..Options::default()
    };
    assert_eq!(
        select_snapshots(all(), &unnamed).unwrap_err().text(),
        "no snapshot named `z`"
    );
    let both = Options {
        snapshot: Some("a".to_string()),
        ..by_xid
    };
    assert_eq!(
        select_snapshots(all(), &both).unwrap_err().kind(),
        ErrorKind::Usage
    );
    let image = Image::new();
    assert_eq!(
        unite_quietly(&Source::new(&image), &Options::default(), "/", Vec::new())
            .err()
            .unwrap()
            .text(),
        "volume has no snapshots at or before the requested boundary"
    );
}

// ---------------------------------------------------------------------------
// Manifests
// ---------------------------------------------------------------------------

#[test]
fn fallback_path_expands_snapshot_without_touching_relative_bytes() {
    assert_eq!(
        fallback_source_path("/{snapshot}/Data/Users/me", "snap-1", "a\tb\r\nc"),
        "/snap-1/Data/Users/me/a\tb\r\nc"
    );
    assert_eq!(
        fallback_source_path(
            "/{snapshot-dir}/Data/Users/me",
            "com.apple.TimeMachine.2023-01-02.backup",
            "doc"
        ),
        "/2023-01-02.backup/Data/Users/me/doc"
    );
}

#[test]
fn fallback_path_takes_doubled_braces_and_a_bare_root() {
    assert_eq!(
        fallback_source_path("/{{snapshot}}/{{snapshot-dir}}/", "com.apple.TimeMachine.s", "d"),
        "/com.apple.TimeMachine.s/s/d"
    );
    assert_eq!(fallback_source_path("/", "s", "d"), "//d");
}

#[test]
fn partial_attempt_is_rescheduled_and_never_counted_as_success() {
    let row = ManifestRow {
        line: 1,
        snapshot_xid: 20,
        snapshot_name: Some("com.apple.TimeMachine.new.backup".to_string()),
        source_path: "/new/Data/Users/me/doc".to_string(),
        output_relative_path: "doc".to_string(),
        relative_path: Some("doc".to_string()),
        expected_fsoid: None,
        expected_type: Some("file".to_string()),
    };
    let attempt = Attempt {
        snapshot_xid: 20,
        snapshot_name: row.snapshot_name.clone(),
        source_path: row.source_path.clone(),
        fsoid: Some(42),
        status: "partial",
        bytes: 10,
        note: None,
        error_code: Some("partial-recovery"),
        error_message: Some("incomplete".to_string()),
        fallback_eligible: true,
    };
    assert!(!attempt.is_success());

    let item = WorkItem {
        row,
        target: "/output/doc".to_string(),
        current_source_path: "/new/Data/Users/me/doc".to_string(),
        primary: true,
        attempts: vec![attempt],
    };
    let snapshots = index_by_xid(&vec![
        SnapshotInfo {
            xid: 10,
            name: "com.apple.TimeMachine.old.backup".to_string(),
            sblock_oid: 1,
            extentref_tree_oid: 0,
            create_time: 0,
            change_time: 0,
        },
        SnapshotInfo {
            xid: 20,
            name: "com.apple.TimeMachine.new.backup".to_string(),
            sblock_oid: 2,
            extentref_tree_oid: 0,
            create_time: 0,
            change_time: 0,
        },
    ]);
    let opts = Options {
        fallback_history: true,
        path_template: Some("/{snapshot-dir}/Data/Users/me".to_string()),
        ..Options::default()
    };
    let mut queue: XidMap<Vec<WorkItem>> = XidMap::new();
    let mut output = String::new();
    let mut summary = Summary::default();
    finish_or_reschedule(
        item,
        20,
        &snapshots,
        &opts,
        &mut queue,
        &mut output,
        &mut summary,
    );

    let queued = queue.get(10).expect("older snapshot work");
    assert_eq!(queued.len(), 1);
    assert_eq!(
        queued[0].current_source_path,
        "/old.backup/Data/Users/me/doc"
    );
    assert!(!queued[0].primary);
    assert!(output.is_empty());
    assert_eq!(summary.rows, 0);

    // Before the oldest snapshot there is nothing left to try.
    let item = queue.pop_largest().unwrap().1.pop().unwrap();
    finish_or_reschedule(
        item,
        10,
        &snapshots,
        &opts,
        &mut queue,
        &mut output,
        &mut summary,
    );
    assert!(queue.pop_largest().is_none());
    assert!(output.contains("\"status\":\"partial\""));
    assert!(output.contains(
        "\"error\":{\"code\":\"partial-recovery\",\"message\":\"no snapshot produced complete content\"}"
    ));
    assert_eq!(summary.partial, 1);
    assert!(summary.incomplete());
}

#[test]
fn options_that_contradict_a_manifest_are_refused() {
    let text = |opts: Options| validate_options(&opts).unwrap_err().text();
    let base = Options::default;
    assert!(validate_options(&base()).is_ok());
    assert!(text(Options {
        snapshot_xid: Some(1),
        ..base()
    })
    .contains("do not pass --snapshot"));
    assert!(text(Options {
        output: Some("x".to_string()),
        ..base()
    })
    .contains("use --manifest and --output-root"));
    assert_eq!(
        text(Options {
            format: Some("tsv".to_string()),
            ..base()
        }),
        "`recover-manifest` accepts JSONL only"
    );
    assert!(text(Options {
        fallback_history: true,
        ..base()
    })
    .contains("requires --path-template"));
    assert_eq!(
        text(Options {
            fallback_history: true,
            path_template: Some("x".to_string()),
            ..base()
        }),
        "--path-template must be an absolute APFS path without NUL"
    );
    assert_eq!(
        required_paths(&base()).unwrap_err().text(),
        "`--manifest <jsonl>` is required"
    );
    assert_eq!(
        required_paths(&Options {
            manifest: Some("m".to_string()),
            ..base()
        })
        .unwrap_err()
        .text(),
        "`--output-root <dir>` is required"
    );
}

fn manifest(lines: &[&str], fallback: bool) -> Manifest {
    let mut manifest = Manifest::new();
    for line in lines {
        manifest.take_line(format!("{line}\n").into_bytes(), fallback);
    }
    manifest
}

fn run(source: &Source, disc: &Disc, opts: &Options, lines: &[&str]) -> Result<Summary, Error> {
    let live = source.image.volume(2, 30);
    recover_manifest(
        &live,
        source,
        &mut Journal::new(disc),
        &NoCodec,
        opts,
        &Vec::new(),
        &vec![info(10, "old"), info(20, "new")],
        "/out",
        manifest(lines, opts.fallback_history),
    )
}

fn two_snapshots() -> (Image, Source) {
    let image = Image::new();
    // The newer file has a gap; the older one is whole.
    image.file(1, 10, 4, &[(0, 4, 1)]);
    image.file(2, 10, 8, &[(0, 4, 2)]);
    image.file(2, 11, 4, &[(0, 4, 3)]);
    let mut source = Source::new(&image);
    source.snapshot(10, 1);
    source.snapshot(20, 2);
    source.path(1, "/old/a", 10, "file");
    source.path(2, "/new/a", 10, "file");
    source.path(2, "/new/b", 11, "file");
    (image, source)
}

const ROW_A: &str =
    r#"{"snapshot_xid":20,"source_path":"/new/a","output_relative_path":"x/a","relative_path":"a"}"#;
const ROW_B: &str =
    r#"{"snapshot_xid":20,"source_path":"/new/b","output_relative_path":"b","relative_path":"b"}"#;

#[test]
fn a_partial_leaf_falls_back_to_an_older_snapshot() {
    let (_, source) = two_snapshots();
    let disc = Disc::new();
    let opts = Options {
        fallback_history: true,
        path_template: Some("/{snapshot}".to_string()),
        ..Options::default()
    };
    let summary = run(&source, &disc, &opts, &[ROW_A, ROW_B]).unwrap();
    assert_eq!(summary.rows, 2);
    assert_eq!(summary.recovered, 2);
    assert_eq!(disc.get("/out/x/a"), Some(Node::File(b"1111".to_vec())));
    assert_eq!(disc.get("/out/b"), Some(Node::File(b"3333".to_vec())));
    assert_eq!(
        disc.names(),
        vec!["/out", "/out/b", "/out/x", "/out/x/a"]
    );
    let report = disc.report.borrow();
    let lines: Vec<&str> = report.lines().collect();
    assert_eq!(lines.len(), 2);
    assert!(lines[0].contains("\"output_relative_path\":\"b\""));
    assert!(lines[1].contains("\"attempted_snapshot_xids\":[20,10]"));
    assert!(lines[1].contains("\"actual_snapshot_xid\":10"));
    assert!(lines[1].contains("\"fallback_used\":true"));
    assert!(lines[1].contains("1 hole(s); partial staging output was removed"));
    assert_eq!(
        summary.line(),
        "recover-manifest: rows=2 recovered=2 dry_run=0 skipped_exists=0 partial=0 errors=0"
    );
}

#[test]
fn without_fallback_a_partial_leaf_is_not_installed() {
    let (_, source) = two_snapshots();
    let disc = Disc::new();
    let summary = run(&source, &disc, &Options::default(), &[ROW_A]).unwrap();
    assert_eq!(summary.partial, 1);
    assert!(summary.incomplete());
    assert_eq!(disc.names(), vec!["/out", "/out/x"]);
}

#[test]
fn rows_that_cannot_be_admitted_are_reported() {
    let (_, source) = two_snapshots();
    let disc = Disc::new();
    disc.put("/out", Node::Dir);
    disc.put("/out/there", Node::File(Vec::new()));
    disc.put("/out/link", Node::Link("/etc".to_string()));
    disc.put("/out/file", Node::File(Vec::new()));
    let summary = run(
        &source,
        &disc,
        &Options::default(),
        &[
            "nonsense",
            r#"{"snapshot_xid":5,"source_path":"/a","output_relative_path":"p"}"#,
            r#"{"snapshot_xid":10,"snapshot_name":"new","source_path":"/a","output_relative_path":"q"}"#,
            r#"{"snapshot_xid":20,"source_path":"/new/b","output_relative_path":"there"}"#,
            r#"{"snapshot_xid":20,"source_path":"/new/b","output_relative_path":"link/x"}"#,
            r#"{"snapshot_xid":20,"source_path":"/new/b","output_relative_path":"file/x"}"#,
            r#"{"snapshot_xid":20,"source_path":"/new/b","output_relative_path":"ok"}"#,
            r#"{"snapshot_xid":20,"source_path":"/new/b","output_relative_path":"ok"}"#,
            r#"{"snapshot_xid":20,"source_path":"/none","output_relative_path":"none"}"#,
            r#"{"snapshot_xid":20,"source_path":"/new/b","output_relative_path":"f","fsoid":99}"#,
            r#"{"snapshot_xid":20,"source_path":"/new/b","output_relative_path":"t","type":"symlink"}"#,
        ],
    )
    .unwrap();
    assert_eq!(summary.rows, 11);
    assert_eq!(summary.recovered, 1);
    assert_eq!(summary.skipped, 1);
    assert_eq!(summary.errors, 9);
    let report = disc.report.borrow();
    let has = |text: &str| assert!(report.contains(text), "{text}\n{report}");
    has("\"line\":1,\"status\":\"error\",\"error\":{\"code\":\"usage\",\"message\":\"invalid JSON literal at byte 0\"}");
    has("manifest references unknown snapshot xid 0x5");
    has("manifest snapshot_name `new` does not match xid 0xa (`old`)");
    has("\"status\":\"skipped-exists\"");
    has("\"note\":\"destination already exists\"");
    has("output parent `/out/link` is a symbolic link; refusing boundary escape");
    has("output parent `/out/file` is not a directory");
    has("duplicate output_relative_path resolves to the same target");
    has("no path /none");
    has("manifest FSOID 0x63 does not match resolved FSOID 0xb");
    has("manifest type `symlink` resolved as `file`");
    assert_eq!(disc.get("/out/ok"), Some(Node::File(b"3333".to_vec())));
}

#[test]
fn overwriting_replaces_a_leaf_and_never_a_directory() {
    let (_, source) = two_snapshots();
    let disc = Disc::new();
    disc.put("/out", Node::Dir);
    disc.put("/out/b", Node::File(b"old".to_vec()));
    disc.put("/out/d", Node::Dir);
    let over = Options {
        overwrite: true,
        ..Options::default()
    };
    let summary = run(
        &source,
        &disc,
        &over,
        &[
            ROW_B,
            r#"{"snapshot_xid":20,"source_path":"/new/b","output_relative_path":"d"}"#,
        ],
    )
    .unwrap();
    assert_eq!(summary.recovered, 1);
    assert_eq!(summary.errors, 1);
    assert_eq!(disc.get("/out/b"), Some(Node::File(b"3333".to_vec())));
    assert_eq!(disc.get("/out/d"), Some(Node::Dir));
    assert!(disc
        .report
        .borrow()
        .contains("destination is a directory and cannot be replaced by a leaf"));
}

#[test]
fn a_dry_manifest_run_writes_nothing() {
    let (_, source) = two_snapshots();
    let disc = Disc::new();
    let dry = Options {
        dry_run: true,
        ..Options::default()
    };
    let summary = run(&source, &disc, &dry, &[ROW_A, ROW_B]).unwrap();
    assert_eq!(summary.dry_run, 2);
    assert!(disc.names().is_empty());
}

#[test]
fn links_and_hard_links_of_a_manifest_are_kept() {
    let image = Image::new();
    image.link(2, 12, "target");
    image.put(2, 10, inode_record(10, 0, 0, 2, 4, 10));
    image.put(2, 10, extent_record(10, 0, 4, 5));
    let mut source = Source::new(&image);
    source.snapshot(20, 2);
    source.path(2, "/l", 12, "symlink");
    source.path(2, "/h1", 10, "file");
    source.path(2, "/h2", 10, "file");
    let disc = Disc::new();
    let summary = run(
        &source,
        &disc,
        &Options::default(),
        &[
            r#"{"snapshot_xid":20,"source_path":"/l","output_relative_path":"l","type":"symlink"}"#,
            r#"{"snapshot_xid":20,"source_path":"/h1","output_relative_path":"h1"}"#,
            r#"{"snapshot_xid":20,"source_path":"/h2","output_relative_path":"h2"}"#,
        ],
    )
    .unwrap();
    assert_eq!(summary.recovered, 3);
    assert_eq!(disc.get("/out/l"), Some(Node::Link("target".to_string())));
    assert_eq!(disc.get("/out/h2"), Some(Node::File(b"5555".to_vec())));
    assert!(disc
        .report
        .borrow()
        .contains("hardlink to an earlier manifest output"));
    assert_eq!(
        disc.names(),
        vec!["/out", "/out/h1", "/out/h2", "/out/l"]
    );
}

#[test]
fn a_snapshot_that_cannot_be_opened_fails_its_rows() {
    let (_, mut source) = two_snapshots();
    source.roots.remove(&20);
    let disc = Disc::new();
    let summary = run(&source, &disc, &Options::default(), &[ROW_B]).unwrap();
    assert_eq!(summary.errors, 1);
    assert!(disc.report.borrow().contains("snapshot is gone"));
}

#[test]
fn a_report_that_cannot_be_written_ends_the_run() {
    let (_, source) = two_snapshots();
    let mut disc = Disc::new();
    disc.fail_report = true;
    assert_eq!(
        run(&source, &disc, &Options::default(), &[ROW_B])
            .unwrap_err()
            .text(),
        "report is closed"
    );
}

#[test]
fn an_encrypted_volume_gives_no_manifest_leaf() {
    let (image, source) = two_snapshots();
    let mut live = image.volume(2, 30);
    live.apsb.encrypted = true;
    let disc = Disc::new();
    let error = recover_manifest(
        &live,
        &source,
        &mut Journal::new(&disc),
        &NoCodec,
        &Options::default(),
        &vec!["odd".to_string()],
        &vec![info(20, "new")],
        "/out",
        manifest(&[ROW_B], false),
    )
    .unwrap_err();
    assert_eq!(error.kind(), ErrorKind::EncryptedUnsupported);
    assert!(disc.names().is_empty());
    assert!(disc.notices.borrow().is_empty());
}

#[test]
fn no_overwrite_install_preserves_existing_target() {
    let disc = Disc::new();
    disc.put("d/staging", Node::File(b"new".to_vec()));
    disc.put("d/target", Node::File(b"old".to_vec()));
    assert!(install_staging(&mut Journal::new(&disc), "d/staging", "d/target", false).is_err());
    assert_eq!(disc.get("d/target"), Some(Node::File(b"old".to_vec())));
}

#[test]
fn a_leaf_whose_staging_name_stays_is_taken_away_again() {
    let disc = Disc::new();
    disc.put("s", Node::File(b"new".to_vec()));
    disc.failed_removals.borrow_mut().insert("s".to_string());
    assert_eq!(
        install_staging(&mut Journal::new(&disc), "s", "t", false).unwrap_err().text(),
        "cannot remove"
    );
    assert_eq!(disc.get("t"), None);
    disc.put("dir", Node::Dir);
    assert_eq!(
        install_staging(&mut Journal::new(&disc), "s", "dir", true).unwrap_err().text(),
        "refusing to replace directory `dir`"
    );
    install_staging(&mut Journal::new(&disc), "s", "t", true).unwrap();
    assert_eq!(disc.get("t"), Some(Node::File(b"new".to_vec())));
}

#[test]
fn secure_target_rejects_symlink_parent() {
    let disc = Disc::new();
    disc.put("/dir/escape", Node::Link("/outside".to_string()));
    let error = secure_target(&mut Journal::new(&disc), "/dir", "escape/file", false)
        .expect_err("symlink parent must be rejected");
    assert_eq!(error.kind(), ErrorKind::Usage);
    assert_eq!(disc.get("/outside/file"), None);
}

#[test]
fn targets_lead_down_from_the_root() {
    let disc = Disc::new();
    assert_eq!(
        secure_target(&mut Journal::new(&disc), "/dir", "a/b/c", false).unwrap(),
        "/dir/a/b/c"
    );
    assert_eq!(disc.names(), vec!["/dir/a", "/dir/a/b"]);
    let text = |path: &str| secure_target(&mut Journal::new(&disc), "/dir", path, true).unwrap_err().text();
    assert_eq!(text(""), "output relative path is empty");
    let relative = "output path must be relative and contain no `.` or `..` components";
    assert_eq!(text("/a"), relative);
    assert_eq!(text("./a"), relative);
    assert_eq!(text("x/../a"), relative);
    assert_eq!(
        secure_target(&mut Journal::new(&disc), "/dir", "x//./y", true).unwrap(),
        "/dir/x/y"
    );
    assert!(matches!(components("..")[0], Component::Other));
    assert!(matches!(&components("a/.")[0], Component::Normal(name) if name == "a"));
    assert_eq!(components("a/.").len(), 1);
}

#[test]
fn the_output_root_is_a_real_directory() {
    let disc = Disc::new();
    disc.put("/link", Node::Link("/elsewhere".to_string()));
    disc.put("/file", Node::File(Vec::new()));
    disc.put("/dir", Node::Dir);
    let text = |path: &str| prepare_output_root(&mut Journal::new(&disc), path, false).unwrap_err().text();
    assert_eq!(text(""), "output root is empty");
    assert_eq!(text("/link"), "output root must not itself be a symbolic link");
    assert_eq!(text("/file"), "output root exists but is not a directory");
    assert_eq!(prepare_output_root(&mut Journal::new(&disc), "/dir", false).unwrap(), "/dir");
    assert_eq!(prepare_output_root(&mut Journal::new(&disc), "new", true).unwrap(), "/cwd/new");
    assert_eq!(disc.get("/cwd/new"), None);
    assert_eq!(prepare_output_root(&mut Journal::new(&disc), "new", false).unwrap(), "/cwd/new");
    assert_eq!(disc.get("/cwd/new"), Some(Node::Dir));
}

#[test]
fn destination_faults_do_not_fall_back() {
    let (_, source) = two_snapshots();
    let disc = Disc::new();
    disc.refuse
        .borrow_mut()
        .insert("/out/_com.apfsrelic.recover_manifest_77_1_1_0".to_string());
    let opts = Options {
        fallback_history: true,
        path_template: Some("/{snapshot}".to_string()),
        ..Options::default()
    };
    let summary = run(&source, &disc, &opts, &[ROW_B]).unwrap();
    assert_eq!(summary.errors, 1);
    let report = disc.report.borrow();
    assert!(report.contains("\"attempted_snapshot_xids\":[20]"));
    assert!(report.contains("\"fallback_eligible\":false"));
    assert!(report.contains("permission-denied"));
}

#[test]
fn a_row_without_attempts_is_an_error() {
    let row = manifest(&[ROW_B], false).rows.pop().unwrap();
    let item = WorkItem {
        row,
        target: "/out/b".to_string(),
        current_source_path: "/new/b".to_string(),
        primary: true,
        attempts: Vec::new(),
    };
    let mut output = String::new();
    emit_work_item(&mut output, &item, "error");
    assert!(output.contains(
        "\"error\":{\"code\":\"object-not-found\",\"message\":\"no snapshot produced recoverable content\"}"
    ));
    assert!(output.ends_with("}\n"));
}

#[test]
fn each_status_is_counted_once() {
    let mut summary = Summary::default();
    for status in ["recovered", "dry-run", "skipped-exists", "partial", "error", "?"] {
        summary.observe(status);
    }
    assert_eq!(summary.rows, 6);
    assert_eq!(summary.recovered, 1);
    assert_eq!(summary.dry_run, 1);
    assert_eq!(summary.skipped, 1);
    assert_eq!(summary.partial, 1);
    assert_eq!(summary.errors, 2);
}

#[test]
fn file_results_become_json() {
    let result = FileResult {
        path: "p\"q".to_string(),
        fsoid: 16,
        status: "partial",
        bytes: 1,
        note: Some("n".to_string()),
    };
    assert_eq!(
        result.to_json().to_compact_string(),
        "{\"path\":\"p\\\"q\",\"fsoid\":\"0x10\",\"status\":\"partial\",\"bytes\":1,\"note\":\"n\"}"
    );
    assert_eq!(
        Json::Array(vec![Json::Int(-1), Json::Null, Json::Bool(true)]).to_compact_string(),
        "[-1,null,true]"
    );
}

#[test]
fn entry_types_are_those_of_the_manifest() {
    assert_eq!(EntryType::from_name("symlink"), EntryType::Symlink);
    assert_eq!(EntryType::from_name("other"), EntryType::Unknown);
}

#[test]
fn a_map_of_snapshots_is_ordered() {
    let mut map: XidMap<&str> = XidMap::new();
    map.insert(20, "b");
    map.insert(10, "a");
    map.insert(20, "c");
    assert_eq!(map.keys(), vec![10, 20]);
    assert_eq!(map.largest_below(20), Some((10, &"a")));
    assert_eq!(map.largest_below(10), None);
    assert_eq!(map.remove(10), Some("a"));
    assert_eq!(map.remove(10), None);
    assert_eq!(map.pop_largest(), Some((20, "c")));
    assert_eq!(map.pop_largest(), None);
}

#[test]
fn a_dry_run_of_a_folder_only_forecasts() {
    let image = Image::new();
    image.dir(1, 2, &[("a", 10, "file"), ("l", 11, "symlink")]);
    image.file(1, 10, 4, &[(0, 4, 1)]);
    image.link(1, 11, "a");
    let dry = Options {
        dry_run: true,
        ..to(2, "out")
    };
    let done = recover_to(&image, &Disc::new(), &dry).unwrap();
    let told: Vec<&str> = done.results.iter().map(|r| r.status).collect();
    assert_eq!(told, vec!["dry-run", "dry-run"]);
}

// ---------------------------------------------------------------------------
// What is asked of a destination
// ---------------------------------------------------------------------------

const TEMP: &str = "_com.apfsrelic.recover_77_0";

#[test]
fn a_file_is_filled_before_it_is_moved() {
    let image = Image::new();
    image.file(1, 5, 4, &[(0, 4, 1)]);
    let mut disc = Disc::new();
    recover_to(&image, &disc, &to(5, "f")).unwrap();
    let whole = ["standing f", "make_parents f", "create _com.apfsrelic.recover_77_0"];
    let mut placed: Vec<String> = whole.iter().map(|s| s.to_string()).collect();
    placed.push(format!("fill {TEMP}"));
    placed.push(format!("flush {TEMP}"));
    placed.push("install f".to_string());
    assert_eq!(disc.asked(), placed);

    let disc_full = {
        disc = Disc::new();
        disc.fail_fill = true;
        &disc
    };
    assert!(recover_to(&image, disc_full, &to(5, "f")).is_err());
    let mut refused: Vec<String> = whole.iter().map(|s| s.to_string()).collect();
    refused.push(format!("fill {TEMP}"));
    refused.push(format!("discard {TEMP}"));
    assert_eq!(disc_full.asked(), refused);
}

fn began() -> Vec<String> {
    vec![
        "standing f".to_string(),
        "make_parents f".to_string(),
        format!("create {TEMP}"),
    ]
}

#[test]
fn a_file_that_cannot_be_read_to_its_end_is_never_moved() {
    let image = Image::new();
    image.file(1, 5, 8, &[(0, 4, 1), (4, 4, 1000)]);
    let disc = Disc::new();
    let error = recover_to(&image, &disc, &to(5, "f")).err().unwrap();
    assert_eq!(error.text(), "no such block");
    let mut asked = began();
    asked.push(format!("fill {TEMP}"));
    asked.push(format!("discard {TEMP}"));
    assert_eq!(disc.asked(), asked);
    assert!(disc.names().is_empty());
}

#[test]
fn the_first_request_that_fails_ends_the_writing() {
    let image = Image::new();
    image.file(1, 5, 12, &[(0, 8, 1), (8, 4, 1000)]);
    let mut disc = Disc::new();
    disc.room = Some(4);
    // The disc is full before the block that cannot be read is asked for.
    let error = recover_to(&image, &disc, &to(5, "f")).err().unwrap();
    assert_eq!(error.text(), "disk is full");
    assert_eq!(*disc.sizes.borrow(), vec![4, 4]);
    let mut disc = Disc::new();
    disc.fail_stream = true;
    let error = recover_to(&image, &disc, &wanting(5)).err().unwrap();
    assert_eq!(error.text(), "stream is closed");
    let disc = Disc::new();
    let error = recover_to(&image, &disc, &wanting(5)).err().unwrap();
    assert_eq!(error.text(), "no such block");
    assert_eq!(*disc.stream.borrow(), b"11112222");
}

#[test]
fn records_are_read_before_anything_is_sent() {
    let image = Image::new();
    image.file(1, 5, 8, &[(0, 8, 1)]);
    let mut short = extent_record(5, 8, 4, 2);
    short.val.truncate(3);
    image.put(1, 5, short);
    let mut disc = Disc::new();
    disc.fail_stream = true;
    let error = recover_to(&image, &disc, &wanting(5)).err().unwrap();
    assert_ne!(error.text(), "stream is closed");
    assert!(disc.sizes.borrow().is_empty());
    assert!(recover_to(&image, &disc, &to(5, "f")).is_err());
    let mut asked = began();
    asked.push(format!("discard {TEMP}"));
    assert_eq!(disc.asked(), asked);
}

#[test]
fn zeros_are_written_a_block_at_a_time() {
    let image = Image::new();
    image.file(1, 5, 15, &[(10, 5, 3)]);
    let disc = Disc::new();
    recover_to(&image, &disc, &to(5, "f")).unwrap();
    assert_eq!(*disc.sizes.borrow(), vec![4, 4, 2, 4, 1]);
    assert_eq!(
        disc.get("f"),
        Some(Node::File(b"\0\0\0\0\0\0\0\0\0\x0033334".to_vec()))
    );
    let streamed = Disc::new();
    recover_to(&image, &streamed, &wanting(5)).unwrap();
    assert_eq!(*streamed.sizes.borrow(), vec![4, 4, 2, 4, 1]);
    assert_eq!(
        Some(Node::File(streamed.stream.borrow().clone())),
        disc.get("f")
    );
}

#[test]
fn an_empty_file_is_moved_without_a_byte() {
    let image = Image::new();
    image.file(1, 5, 0, &[]);
    let disc = Disc::new();
    recover_to(&image, &disc, &to(5, "f")).unwrap();
    let mut asked = began();
    asked.push(format!("flush {TEMP}"));
    asked.push("install f".to_string());
    assert_eq!(disc.asked(), asked);
    assert_eq!(disc.get("f"), Some(Node::File(Vec::new())));
}

#[test]
fn holes_of_a_sparse_file_are_passed_over() {
    let image = Image::new();
    image.put(1, 5, inode_record(5, 0, SPARSE, 1, 12, 5));
    image.put(1, 5, extent_record(5, 4, 4, 3));
    let mut disc = Disc::new();
    recover_to(&image, &disc, &to(5, "f")).unwrap();
    let mut asked = began();
    asked.push(format!("skip to 4 in {TEMP}"));
    asked.push(format!("fill {TEMP}"));
    asked.push(format!("skip to 12 in {TEMP}"));
    asked.push(format!("set length 12 of {TEMP}"));
    asked.push(format!("flush {TEMP}"));
    asked.push("install f".to_string());
    assert_eq!(disc.asked(), asked);
    disc.fail_set_len = true;
    let error = recover_to(&image, &disc, &to(5, "g")).err().unwrap();
    assert_eq!(error.text(), "cannot set the length");
    assert_eq!(disc.names(), vec!["f"]);
}

#[test]
fn what_is_held_back_is_not_moved() {
    let image = Image::new();
    image.file(1, 5, 4, &[(0, 4, 1)]);
    let mut disc = Disc::new();
    disc.fail_flush = true;
    let error = recover_to(&image, &disc, &to(5, "f")).err().unwrap();
    assert_eq!(error.text(), "cannot flush");
    assert!(disc.names().is_empty());
    assert!(write_bytes_atomic(&mut Journal::new(&disc), "f", Ok(b"x".to_vec())).is_err());
    assert!(disc.names().is_empty());
}

#[test]
fn a_person_is_told_how_a_run_goes() {
    let (image, source) = two_snapshots();
    image.warnings.borrow_mut().push("slow node".to_string());
    let mut live = image.volume(2, 30);
    live.warnings.push("old format".to_string());
    let disc = Disc::new();
    recover_manifest(
        &live,
        &source,
        &mut Journal::new(&disc),
        &NoCodec,
        &Options::default(),
        &vec!["odd header".to_string()],
        &vec![info(10, "old"), info(20, "new")],
        "/out",
        manifest(&[ROW_B], false),
    )
    .unwrap();
    assert_eq!(
        *disc.notices.borrow(),
        vec![
            "recover-manifest: source warning: odd header",
            "recover-manifest: volume warning: old format",
            "recover-manifest: snapshot xid=0x14 attempts=1",
            "recover-manifest: snapshot xid=0x14 btree warning: slow node",
            "recover-manifest: rows=1 recovered=1 dry_run=0 skipped_exists=0 partial=0 errors=0",
        ]
    );
}

#[test]
fn a_person_is_told_of_names_that_are_not_told_apart() {
    let image = Image::new();
    let source = history(&image);
    let mut live = image.volume(2, 30);
    live.apsb.case_insensitive = true;
    let disc = Disc::new();
    let all = vec![info(10, "old"), info(20, "new")];
    let mut journal = Journal::new(&disc);
    let union =
        unite::<Image, Source, Disc>(&live, &source, &mut journal, &Options::default(), "/home", all)
            .unwrap();
    assert_eq!(disc.notices.borrow().len(), 3);
    assert!(disc.notices.borrow()[0].contains("raw relative paths remain authoritative"));
    assert!(disc.asked().is_empty());
    assert_eq!(union.rows[0].entry.clone(), union.rows[0].entry);
}

#[test]
fn an_occupied_place_is_asked_about_and_nothing_else() {
    let image = Image::new();
    image.file(1, 5, 4, &[(0, 4, 1)]);
    image.link(1, 6, "x");
    let disc = Disc::new();
    disc.put("f", Node::File(b"old".to_vec()));
    for fsoid in [5, 6] {
        assert!(recover_to(&image, &disc, &to(fsoid, "f")).is_err());
        assert_eq!(disc.asked(), vec!["standing f"]);
    }
}

#[test]
fn a_dry_run_asks_nothing_of_the_destination() {
    let image = Image::new();
    image.dir(1, 2, &[("a", 10, "file"), ("l", 11, "symlink")]);
    image.file(1, 10, 4, &[(0, 4, 1)]);
    image.link(1, 11, "a");
    let disc = Disc::new();
    for fsoid in [2, 10, 11] {
        let dry = Options {
            dry_run: true,
            ..to(fsoid, "out")
        };
        recover_to(&image, &disc, &dry).unwrap();
    }
    assert!(disc.asked().is_empty());
}

#[test]
fn an_encrypted_volume_asks_nothing_of_the_destination() {
    let image = Image::new();
    image.file(1, 5, 4, &[(0, 4, 1)]);
    let source = Source::new(&image);
    let mut vol = image.volume(1, 10);
    vol.apsb.encrypted = true;
    let bt = vol.btree();
    let disc = Disc::new();
    let opts = to(5, "f");
    let recovery = Recovery {
        vol: &vol,
        bt: &bt,
        codec: &NoCodec,
        opts: &opts,
    };
    let error = recovery
        .recover(&source, &mut Journal::new(&disc))
        .err()
        .unwrap();
    assert_eq!(error.kind(), ErrorKind::EncryptedUnsupported);
    assert!(disc.asked().is_empty());
}

#[test]
fn a_partial_leaf_touches_its_staging_name_only() {
    let (_, source) = two_snapshots();
    let disc = Disc::new();
    let summary = run(&source, &disc, &Options::default(), &[ROW_A]).unwrap();
    assert_eq!(summary.partial, 1);
    let staging = "/out/x/_com.apfsrelic.recover_manifest_77_1_1_0";
    let asked = disc.asked();
    assert_eq!(asked.last(), Some(&format!("remove {staging}")));
    let touched: Vec<&String> = asked
        .iter()
        .filter(|line| line.ends_with(" /out/x/a") && !line.starts_with("standing"))
        .collect();
    assert!(touched.is_empty());
    assert_eq!(disc.get("/out/x/a"), None);
    assert_eq!(disc.get(staging), None);
}

#[test]
fn a_dry_run_of_a_manifest_only_asks_and_reports() {
    let (_, source) = two_snapshots();
    let disc = Disc::new();
    let dry = Options {
        dry_run: true,
        ..Options::default()
    };
    let summary = run(&source, &disc, &dry, &[ROW_A, ROW_B]).unwrap();
    assert_eq!(summary.dry_run, 2);
    assert!(disc.asked().iter().all(|line| line.starts_with("standing ")));
    assert!(disc.names().is_empty());
    assert!(!disc.report.borrow().is_empty());
}

#[test]
fn only_missing_parents_are_made() {
    let disc = Disc::new();
    disc.put("/dir/a", Node::Dir);
    secure_target(&mut Journal::new(&disc), "/dir", "a/b/c", false).unwrap();
    assert_eq!(
        disc.asked(),
        vec!["standing /dir/a", "standing /dir/a/b", "make_dir /dir/a/b"]
    );
    disc.put("/dir/l", Node::Link("/outside".to_string()));
    assert!(secure_target(&mut Journal::new(&disc), "/dir", "l/x/y", false).is_err());
    assert_eq!(disc.asked(), vec!["standing /dir/l"]);
}

#[test]
fn a_leaf_gets_its_name_anew_before_it_loses_the_staging_name() {
    let disc = Disc::new();
    disc.put("s", Node::File(b"new".to_vec()));
    install_staging(&mut Journal::new(&disc), "s", "t", false).unwrap();
    assert_eq!(disc.asked(), vec!["standing s", "hard_link t", "remove s"]);
    disc.put("s", Node::Link("there".to_string()));
    assert!(install_staging(&mut Journal::new(&disc), "s", "t", false).is_err());
    assert_eq!(disc.asked(), vec!["standing s", "copy_link t"]);
    assert_eq!(disc.get("t"), Some(Node::File(b"new".to_vec())));
}

// ---------------------------------------------------------------------------
// Volumes without a block size
// ---------------------------------------------------------------------------

#[test]
fn without_a_block_size_only_data_is_out_of_reach() {
    let image = Image::new();
    image.file(1, 5, 0, &[]);
    image.file(1, 6, 4, &[(0, 4, 1)]);
    image.link(1, 7, "there");
    let source = Source::new(&image);
    let mut vol = image.volume(1, 10);
    vol.block_size = 0;
    let bt = vol.btree();
    let disc = Disc::new();
    let recover = |opts: &Options| {
        let recovery = Recovery {
            vol: &vol,
            bt: &bt,
            codec: &NoCodec,
            opts,
        };
        recovery.recover(&source, &mut Journal::new(&disc))
    };
    assert_eq!(recover(&to(5, "empty")).unwrap().results[0].status, "recovered");
    assert_eq!(disc.get("empty"), Some(Node::File(Vec::new())));
    assert_eq!(recover(&to(7, "link")).unwrap().results[0].status, "recovered");
    assert_eq!(disc.get("link"), Some(Node::Link("there".to_string())));
    let dry = Options {
        dry_run: true,
        ..to(6, "file")
    };
    assert_eq!(recover(&dry).unwrap().results[0].status, "dry-run");
    let error = recover(&to(6, "file")).err().unwrap();
    assert_eq!(error.kind(), ErrorKind::Corrupt);
    assert_eq!(error.text(), "volume has a block size of zero");
    assert_eq!(disc.get("file"), None);
    assert!(stat(&source, &vol, &bt, &wanting(6)).is_ok());
}

#[test]
fn a_stream_is_read_into_the_memory_reserved_for_it() {
    let image = Image::new();
    image.put(1, 6, extent_record(6, 0, 8, 2));
    let vol = image.volume(1, 10);
    let bt = vol.btree();
    let records = vol.records(&bt, 6).unwrap();
    let read = |size: u64| vol.read_reserved(&records, "x", size, Vec::new());
    assert_eq!(read(6).unwrap(), b"222233");
    assert_eq!(
        read(9).unwrap_err().text(),
        "xattr `x` stream is incomplete: 9 bytes, 1 hole(s), 0 overlap(s), 0 missing byte(s)"
    );
}

// ---------------------------------------------------------------------------
// Commands that end early
// ---------------------------------------------------------------------------

#[test]
fn a_scan_that_fails_notes_nothing() {
    let image = Image::new();
    image.dir(1, 2, &[("d", 3, "dir"), ("f", 4, "file")]);
    image.broken.borrow_mut().insert((1, 3));
    let mut source = Source::new(&image);
    source.snapshot(10, 1);
    source.path(1, "/r", 2, "dir");
    let mut scan = apfsrelic::scan::Scan::new();
    let opts = Options::default();
    let (snap, latest) = (info(10, "s"), info(10, "s"));
    assert!(scan.scan_snapshot(&source, &snap, &latest, "/r", &opts).is_err());
    assert!(scan.errors.is_empty() && scan.latest_incomplete.is_empty());
    assert_eq!(scan.union.len(), 2, "what was seen before the error stays");
    assert!(scan.scan_snapshot(&source, &snap, &latest, "/none", &opts).is_err());
    assert!(scan.errors.is_empty() && scan.latest_incomplete.is_empty());
    assert_eq!(scan.union.len(), 2);
}
