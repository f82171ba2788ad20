//! Deterministic union of path observations from a sequence of snapshots.
//!
//! Snapshots are observed oldest first. For each relative path the newest
//! observation wins, and a path that the latest snapshot does not show is told
//! apart from one that lies below a directory which the latest scan could not
//! read.
use crate::text::{
    chars_of, law_leading_slashes_are_cut, law_text_order_is_strict_and_total,
    law_trailing_slashes_are_cut, opt_text, str_eq, str_less, string_from, string_of, text_lt,
    texts, trim_slashes, without_leading_slashes, without_trailing_slashes,
};
use vstd::hash_map::StringHashMap;
use vstd::hash_set::StringHashSet;
use vstd::prelude::*;

verus! {

// ---------------------------------------------------------------------------
// Entry types
// ---------------------------------------------------------------------------

/// Stable directory-entry types of the history manifest.
#[derive(Debug, Clone, Copy, PartialEq, Eq, PartialOrd, Ord, Structural)]
pub enum EntryType {
    File,
    Dir,
    Symlink,
    Fifo,
    Char,
    Block,
    Socket,
    Whiteout,
    Unknown,
}

impl EntryType {
    /// The place of a type in the order of types.
    pub open spec fn rank(self) -> u16 {
        match self {
            EntryType::File => 0,
            EntryType::Dir => 1,
            EntryType::Symlink => 2,
            EntryType::Fifo => 3,
            EntryType::Char => 4,
            EntryType::Block => 5,
            EntryType::Socket => 6,
            EntryType::Whiteout => 7,
            EntryType::Unknown => 8,
        }
    }

    /// The name of a type.
    pub open spec fn name(self) -> Seq<char> {
        match self {
            EntryType::File => "file"@,
            EntryType::Dir => "dir"@,
            EntryType::Symlink => "symlink"@,
            EntryType::Fifo => "fifo"@,
            EntryType::Char => "char"@,
            EntryType::Block => "block"@,
            EntryType::Socket => "socket"@,
            EntryType::Whiteout => "whiteout"@,
            EntryType::Unknown => "unknown"@,
        }
    }

    /// The type that has `name`; a name that no type has gives `Unknown`.
    pub open spec fn named(name: Seq<char>) -> EntryType {
        if name == "file"@ {
            EntryType::File
        } else if name == "dir"@ {
            EntryType::Dir
        } else if name == "symlink"@ {
            EntryType::Symlink
        } else if name == "fifo"@ {
            EntryType::Fifo
        } else if name == "char"@ {
            EntryType::Char
        } else if name == "block"@ {
            EntryType::Block
        } else if name == "socket"@ {
            EntryType::Socket
        } else if name == "whiteout"@ {
            EntryType::Whiteout
        } else {
            EntryType::Unknown
        }
    }

    /// The type can be recovered as one object: a file or a symbolic link.
    pub open spec fn leaf(self) -> bool {
        self is File || self is Symlink
    }

    pub fn from_name(name: &str) -> (r: EntryType)
        ensures
            r == EntryType::named(name@),
    {
        if str_eq(name, "file") {
            EntryType::File
        } else if str_eq(name, "dir") {
            EntryType::Dir
        } else if str_eq(name, "symlink") {
            EntryType::Symlink
        } else if str_eq(name, "fifo") {
            EntryType::Fifo
        } else if str_eq(name, "char") {
            EntryType::Char
        } else if str_eq(name, "block") {
            EntryType::Block
        } else if str_eq(name, "socket") {
            EntryType::Socket
        } else if str_eq(name, "whiteout") {
            EntryType::Whiteout
        } else {
            EntryType::Unknown
        }
    }

    pub fn as_str(self) -> (r: &'static str)
        ensures
            r@ == self.name(),
    {
        match self {
            EntryType::File => "file",
            EntryType::Dir => "dir",
            EntryType::Symlink => "symlink",
            EntryType::Fifo => "fifo",
            EntryType::Char => "char",
            EntryType::Block => "block",
            EntryType::Socket => "socket",
            EntryType::Whiteout => "whiteout",
            EntryType::Unknown => "unknown",
        }
    }

    pub fn is_leaf(self) -> (r: bool)
        ensures
            r == self.leaf(),
    {
        match self {
            EntryType::File => true,
            EntryType::Symlink => true,
            _ => false,
        }
    }

    fn rank_number(self) -> (r: u16)
        ensures
            r == self.rank(),
    {
        match self {
            EntryType::File => 0,
            EntryType::Dir => 1,
            EntryType::Symlink => 2,
            EntryType::Fifo => 3,
            EntryType::Char => 4,
            EntryType::Block => 5,
            EntryType::Socket => 6,
            EntryType::Whiteout => 7,
            EntryType::Unknown => 8,
        }
    }

    /// One bit for each type.
    pub open spec fn bit(self) -> u16 {
        1u16 << self.rank()
    }

    fn mask(self) -> (r: u16)
        ensures
            r == self.bit(),
    {
        1u16 << self.rank_number()
    }
}

/// The name of every type leads back to it.
pub proof fn law_type_names_round_trip(t: EntryType)
    ensures
        EntryType::named(t.name()) == t,
{
    reveal_strlit("file");
    reveal_strlit("dir");
    reveal_strlit("symlink");
    reveal_strlit("fifo");
    reveal_strlit("char");
    reveal_strlit("block");
    reveal_strlit("socket");
    reveal_strlit("whiteout");
    reveal_strlit("unknown");
    let names = seq![
        "file"@,
        "dir"@,
        "symlink"@,
        "fifo"@,
        "char"@,
        "block"@,
        "socket"@,
        "whiteout"@,
        "unknown"@,
    ];
    assert(names[0].len() == 4 && names[1].len() == 3 && names[2].len() == 7 && names[3].len() == 4
        && names[4].len() == 4 && names[5].len() == 5 && names[6].len() == 6 && names[7].len() == 8
        && names[8].len() == 7);
    assert(names[0][1] == 'i' && names[3][1] == 'i' && names[4][1] == 'h');
    assert(names[0][2] == 'l' && names[3][2] == 'f');
    assert(names[2][0] == 's' && names[8][0] == 'u');
}

/// Each type has one name, and what has none of these names is of unknown type.
pub proof fn law_types_are_known_by_name(name: Seq<char>)
    ensures
        EntryType::named(name) is File <==> name == "file"@,
        EntryType::named(name) is Dir <==> name == "dir"@,
        EntryType::named(name) is Symlink <==> name == "symlink"@,
        EntryType::named(name) is Fifo <==> name == "fifo"@,
        EntryType::named(name) is Char <==> name == "char"@,
        EntryType::named(name) is Block <==> name == "block"@,
        EntryType::named(name) is Socket <==> name == "socket"@,
        EntryType::named(name) is Whiteout <==> name == "whiteout"@,
        EntryType::File.name() == "file"@,
        EntryType::Dir.name() == "dir"@,
        EntryType::Symlink.name() == "symlink"@,
        EntryType::Fifo.name() == "fifo"@,
        EntryType::Char.name() == "char"@,
        EntryType::Block.name() == "block"@,
        EntryType::Socket.name() == "socket"@,
        EntryType::Whiteout.name() == "whiteout"@,
        EntryType::Unknown.name() == "unknown"@,
{
    law_type_names_round_trip(EntryType::File);
    law_type_names_round_trip(EntryType::Dir);
    law_type_names_round_trip(EntryType::Symlink);
    law_type_names_round_trip(EntryType::Fifo);
    law_type_names_round_trip(EntryType::Char);
    law_type_names_round_trip(EntryType::Block);
    law_type_names_round_trip(EntryType::Socket);
    law_type_names_round_trip(EntryType::Whiteout);
}

/// All types, in order.
pub open spec fn all_types() -> Seq<EntryType> {
    seq![
        EntryType::File,
        EntryType::Dir,
        EntryType::Symlink,
        EntryType::Fifo,
        EntryType::Char,
        EntryType::Block,
        EntryType::Socket,
        EntryType::Whiteout,
        EntryType::Unknown,
    ]
}

/// The types whose bit is set in `mask`.
pub open spec fn types_in(mask: u16) -> Set<EntryType> {
    Set::new(|t: EntryType| mask & t.bit() != 0)
}

/// The types in `types`, in the order of types.
pub open spec fn in_order(types: Set<EntryType>) -> Seq<EntryType> {
    all_types().filter(|t: EntryType| types.contains(t))
}

proof fn lemma_types_of_bit(t: EntryType)
    ensures
        types_in(t.bit()) == set![t],
{
    assert forall|u: EntryType| types_in(t.bit()).contains(u) <==> set![t].contains(u) by {
        let i = t.rank();
        let j = u.rank();
        assert(((1u16 << i) & (1u16 << j) != 0) == (i == j)) by (bit_vector)
            requires
                i < 9,
                j < 9,
        ;
    }
    assert(types_in(t.bit()) =~= set![t]);
}

proof fn lemma_types_of_union(a: u16, b: u16)
    ensures
        types_in(a | b) == types_in(a).union(types_in(b)),
{
    assert forall|t: EntryType|
        types_in(a | b).contains(t) <==> types_in(a).union(types_in(b)).contains(t) by {
        let c = t.bit();
        assert(((a | b) & c != 0) == (a & c != 0 || b & c != 0)) by (bit_vector);
    }
    assert(types_in(a | b) =~= types_in(a).union(types_in(b)));
}

/// What the latest snapshot proves about a path.
#[derive(Debug, Clone, Copy, PartialEq, Eq, Structural)]
pub enum LatestPresence {
    Present,
    Absent,
    Unknown,
}

impl LatestPresence {
    /// The name of a state.
    pub open spec fn name(self) -> Seq<char> {
        match self {
            LatestPresence::Present => "present"@,
            LatestPresence::Absent => "absent"@,
            LatestPresence::Unknown => "unknown"@,
        }
    }

    pub fn as_str(self) -> (r: &'static str)
        ensures
            r@ == self.name(),
    {
        match self {
            LatestPresence::Present => "present",
            LatestPresence::Absent => "absent",
            LatestPresence::Unknown => "unknown",
        }
    }
}

// ---------------------------------------------------------------------------
// Paths
// ---------------------------------------------------------------------------

/// A path without slashes at either end.
pub open spec fn clean(path: Seq<char>) -> Seq<char> {
    without_trailing_slashes(without_leading_slashes(path))
}

/// The path above `path`: what stands before its last slash.
pub open spec fn parent(path: Seq<char>) -> Option<Seq<char>>
    decreases path.len(),
{
    if path.len() == 0 {
        None
    } else if path.last() == '/' {
        Some(path.drop_last())
    } else {
        parent(path.drop_last())
    }
}

/// `above` is a directory prefix of `path`.
pub open spec fn is_above(above: Seq<char>, path: Seq<char>) -> bool {
    above.len() < path.len() && path.take(above.len() as int) == above && path[above.len() as int]
        == '/'
}

/// The parent of a path is its longest directory prefix; a path without a slash
/// has none.
pub proof fn law_parent_is_longest_prefix(path: Seq<char>)
    ensures
        match parent(path) {
            Some(p) => is_above(p, path) && forall|k: int|
                p.len() < k < path.len() ==> path[k] != '/',
            None => forall|k: int| 0 <= k < path.len() ==> path[k] != '/',
        },
    decreases path.len(),
{
    if path.len() > 0 {
        let front = path.drop_last();
        if path.last() == '/' {
            assert(path.take(front.len() as int) =~= front);
        } else {
            law_parent_is_longest_prefix(front);
            match parent(front) {
                Some(p) => {
                    assert(path.take(p.len() as int) =~= front.take(p.len() as int));
                    assert forall|k: int| p.len() < k < path.len() implies path[k] != '/' by {
                        if k < front.len() {
                            assert(front[k] == path[k]);
                        }
                    }
                },
                None => {
                    assert forall|k: int| 0 <= k < path.len() implies path[k] != '/' by {
                        if k < front.len() {
                            assert(front[k] == path[k]);
                        }
                    }
                },
            }
        }
    }
}

fn clean_relative_path(path: &str) -> (r: String)
    ensures
        r@ == clean(path@),
{
    trim_slashes(path)
}

/// Where the last slash among `chars[..end]` stands.
fn last_slash(chars: &Vec<char>, end: usize) -> (r: Option<usize>)
    requires
        end <= chars@.len(),
    ensures
        match r {
            Some(i) => i < end && parent(chars@.take(end as int)) == Some(chars@.take(i as int)),
            None => parent(chars@.take(end as int)) is None,
        },
{
    let mut i: usize = end;
    while i > 0
        invariant
            i <= end <= chars@.len(),
            parent(chars@.take(end as int)) == parent(chars@.take(i as int)),
        decreases i,
    {
        proof {
            assert(chars@.take(i as int).drop_last() =~= chars@.take(i - 1));
            assert(chars@.take(i as int).last() == chars@[i - 1]);
        }
        if chars[i - 1] == '/' {
            return Some(i - 1);
        }
        i -= 1;
    }
    None
}

// ---------------------------------------------------------------------------
// Observations
// ---------------------------------------------------------------------------

struct PendingEntry {
    source_path: String,
    entry_type: EntryType,
    fsoid: u64,
    snapshot_xid: u64,
    first_snapshot_xid: u64,
    last_counted_snapshot_xid: u64,
    snapshots_seen: u32,
    type_mask: u16,
}

/// What is known of one path: its winning observation so far, and a summary of
/// all.
pub struct PathRecord {
    pub source_path: Seq<char>,
    pub entry_type: EntryType,
    pub fsoid: u64,
    pub snapshot_xid: u64,
    pub first_snapshot_xid: u64,
    pub last_counted_snapshot_xid: u64,
    pub snapshots_seen: u32,
    pub types: Set<EntryType>,
}

impl PendingEntry {
    /// Takes one more observation of the same path into account.
    fn take_in(&mut self, source: String, entry_type: EntryType, fsoid: u64, snapshot_xid: u64)
        requires
            !entry_type.leaf() ==> source@ == Seq::<char>::empty(),
        ensures
            forall|o: Observation|
                kept_source(o) == source@ && o.entry_type == entry_type && o.fsoid == fsoid
                    && o.snapshot_xid == snapshot_xid ==> final(self)@ == #[trigger] next_record(
                    old(self)@,
                    o,
                ),
    {
        let mask: u16 = entry_type.mask();
        proof {
            lemma_types_of_bit(entry_type);
            lemma_types_of_union(self.type_mask, mask);
            assert(self@.types.union(set![entry_type]) =~= self@.types.insert(entry_type));
        }
        if snapshot_xid < self.first_snapshot_xid {
            self.first_snapshot_xid = snapshot_xid;
        }
        if self.last_counted_snapshot_xid != snapshot_xid {
            self.snapshots_seen = self.snapshots_seen.saturating_add(1);
            self.last_counted_snapshot_xid = snapshot_xid;
        }
        self.type_mask = self.type_mask | mask;
        let rank: u16 = entry_type.rank_number();
        let current: u16 = self.entry_type.rank_number();
        let replace = snapshot_xid > self.snapshot_xid || (snapshot_xid == self.snapshot_xid && (
        rank < current || (rank == current && fsoid < self.fsoid)));
        if replace {
            self.source_path = source;
            self.entry_type = entry_type;
            self.fsoid = fsoid;
            self.snapshot_xid = snapshot_xid;
        }
    }
}

impl View for PendingEntry {
    type V = PathRecord;

    closed spec fn view(&self) -> PathRecord {
        PathRecord {
            source_path: self.source_path@,
            entry_type: self.entry_type,
            fsoid: self.fsoid,
            snapshot_xid: self.snapshot_xid,
            first_snapshot_xid: self.first_snapshot_xid,
            last_counted_snapshot_xid: self.last_counted_snapshot_xid,
            snapshots_seen: self.snapshots_seen,
            types: types_in(self.type_mask),
        }
    }
}

/// One directory entry seen in one snapshot.
pub struct Observation {
    pub relative_path: Seq<char>,
    pub source_path: Seq<char>,
    pub entry_type: EntryType,
    pub fsoid: u64,
    pub snapshot_xid: u64,
}

/// The source path that an observation keeps: only what can be recovered as one
/// object has one.
pub open spec fn kept_source(o: Observation) -> Seq<char> {
    if o.entry_type.leaf() {
        o.source_path
    } else {
        Seq::empty()
    }
}

/// Within one snapshot, (`a_type`, `a_id`) goes before (`b_type`, `b_id`).
pub open spec fn goes_before(a_type: EntryType, a_id: u64, b_type: EntryType, b_id: u64) -> bool {
    a_type.rank() < b_type.rank() || (a_type == b_type && a_id < b_id)
}

/// Observation `o` takes the place of the winner in `r`: it is from a newer
/// snapshot, or goes before it in the same one.
pub open spec fn replaces(o: Observation, r: PathRecord) -> bool {
    o.snapshot_xid > r.snapshot_xid || (o.snapshot_xid == r.snapshot_xid && goes_before(
        o.entry_type,
        o.fsoid,
        r.entry_type,
        r.fsoid,
    ))
}

/// What is known of a path after its first observation.
pub open spec fn first_record(o: Observation) -> PathRecord {
    PathRecord {
        source_path: kept_source(o),
        entry_type: o.entry_type,
        fsoid: o.fsoid,
        snapshot_xid: o.snapshot_xid,
        first_snapshot_xid: o.snapshot_xid,
        last_counted_snapshot_xid: o.snapshot_xid,
        snapshots_seen: 1,
        types: set![o.entry_type],
    }
}

/// What is known of a path after one more observation.
pub open spec fn next_record(r: PathRecord, o: Observation) -> PathRecord {
    let again = r.last_counted_snapshot_xid == o.snapshot_xid;
    let won = replaces(o, r);
    PathRecord {
        source_path: if won {
            kept_source(o)
        } else {
            r.source_path
        },
        entry_type: if won {
            o.entry_type
        } else {
            r.entry_type
        },
        fsoid: if won {
            o.fsoid
        } else {
            r.fsoid
        },
        snapshot_xid: if won {
            o.snapshot_xid
        } else {
            r.snapshot_xid
        },
        first_snapshot_xid: if o.snapshot_xid < r.first_snapshot_xid {
            o.snapshot_xid
        } else {
            r.first_snapshot_xid
        },
        last_counted_snapshot_xid: o.snapshot_xid,
        snapshots_seen: if again || r.snapshots_seen == u32::MAX {
            r.snapshots_seen
        } else {
            (r.snapshots_seen + 1) as u32
        },
        types: r.types.insert(o.entry_type),
    }
}

/// What is known of all paths after one more observation.
pub open spec fn observed(known: Map<Seq<char>, PathRecord>, o: Observation) -> Map<
    Seq<char>,
    PathRecord,
> {
    let key = clean(o.relative_path);
    if known.contains_key(key) {
        known.insert(key, next_record(known[key], o))
    } else {
        known.insert(key, first_record(o))
    }
}

/// What is known after the observations `all`, in order.
pub open spec fn known_after(all: Seq<Observation>) -> Map<Seq<char>, PathRecord>
    decreases all.len(),
{
    if all.len() == 0 {
        Map::empty()
    } else {
        observed(known_after(all.drop_last()), all.last())
    }
}

/// An incremental union of paths. Observations come oldest snapshot first;
/// duplicates within one snapshot are resolved by a fixed order.
pub struct HistoryUnion {
    index: StringHashMap<usize>,
    entries: Vec<(String, PendingEntry)>,
}

impl View for HistoryUnion {
    type V = Map<Seq<char>, PathRecord>;

    closed spec fn view(&self) -> Map<Seq<char>, PathRecord> {
        Map::new(
            |key: Seq<char>| self.index@.contains_key(key),
            |key: Seq<char>| self.entries@[self.index@[key] as int].1@,
        )
    }
}

impl Default for HistoryUnion {
    fn default() -> (r: HistoryUnion)
        ensures
            r.well_formed(),
            r@ == Map::<Seq<char>, PathRecord>::empty(),
    {
        HistoryUnion::new()
    }
}

impl HistoryUnion {
    /// The index leads from every path to its entry, and every entry is in it.
    pub closed spec fn well_formed(&self) -> bool {
        &&& forall|key: Seq<char>| #[trigger]
            self.index@.contains_key(key) ==> self.index@[key] < self.entries@.len()
                && self.entries@[self.index@[key] as int].0@ == key
        &&& forall|i: int|
            0 <= i < self.entries@.len() ==> self.index@.contains_key(
                (#[trigger] self.entries@[i]).0@,
            ) && self.index@[self.entries@[i].0@] == i
    }

    pub fn new() -> (r: HistoryUnion)
        ensures
            r.well_formed(),
            r@ == Map::<Seq<char>, PathRecord>::empty(),
    {
        let r = HistoryUnion { index: StringHashMap::new(), entries: Vec::new() };
        proof {
            assert(r@ =~= Map::empty());
        }
        r
    }

    pub fn len(&self) -> (r: usize)
        requires
            self.well_formed(),
        ensures
            r == self@.dom().len(),
    {
        proof {
            broadcast use vstd::hash_map::group_hash_map_axioms;

            assert(self@.dom() =~= self.index@.dom());
        }
        self.index.len()
    }

    pub fn is_empty(&self) -> (r: bool)
        requires
            self.well_formed(),
        ensures
            r == (self@.dom() == Set::<Seq<char>>::empty()),
    {
        let r = self.entries.len() == 0;
        proof {
            if r {
                assert forall|key: Seq<char>| !#[trigger] self@.dom().contains(key) by {
                    if self@.dom().contains(key) {
                        assert(self.index@.contains_key(key));
                    }
                }
                assert(self@.dom() =~= Set::empty());
            } else {
                let key = self.entries@[0].0@;
                assert(self.index@.contains_key(key));
                assert(self@.dom().contains(key));
            }
        }
        r
    }

    /// Takes one directory entry into account. `relative_path` is the key across
    /// snapshots; `source_path` is kept only for the winning snapshot.
    pub fn observe(
        &mut self,
        relative_path: &str,
        source_path: &str,
        entry_type: EntryType,
        fsoid: u64,
        snapshot_xid: u64,
    )
        requires
            old(self).well_formed(),
        ensures
            final(self).well_formed(),
            final(self)@ == observed(
                old(self)@,
                (Observation {
                    relative_path: relative_path@,
                    source_path: source_path@,
                    entry_type,
                    fsoid,
                    snapshot_xid,
                }),
            ),
    {
        let ghost o = Observation {
            relative_path: relative_path@,
            source_path: source_path@,
            entry_type,
            fsoid,
            snapshot_xid,
        };
        let key = clean_relative_path(relative_path);
        let source = if entry_type.is_leaf() {
            source_path.to_owned()
        } else {
            String::new()
        };
        proof {
            if !entry_type.leaf() {
                assert(source@ =~= Seq::empty());
            }
            lemma_types_of_bit(entry_type);
        }
        let found: Option<usize> = match self.index.get(key.as_str()) {
            Some(at) => Some(*at),
            None => None,
        };
        match found {
            None => {
                let at: usize = self.entries.len();
                let ghost k = key@;
                let ghost before = self@;
                self.index.insert(key.clone(), at);
                self.entries.push(
                    (
                        key,
                        PendingEntry {
                            source_path: source,
                            entry_type,
                            fsoid,
                            snapshot_xid,
                            first_snapshot_xid: snapshot_xid,
                            last_counted_snapshot_xid: snapshot_xid,
                            snapshots_seen: 1,
                            type_mask: entry_type.mask(),
                        },
                    ),
                );
                proof {
                    assert(self.entries@[at as int].1@ == first_record(o));
                    assert forall|i: int| 0 <= i < self.entries@.len() implies {
                        &&& self.index@.contains_key((#[trigger] self.entries@[i]).0@)
                        &&& self.index@[self.entries@[i].0@] == i
                    } by {
                        if i < at {
                            assert(self.entries@[i] == old(self).entries@[i]);
                            assert(old(self).index@.contains_key(old(self).entries@[i].0@));
                        }
                    }
                    assert(self@ =~= before.insert(k, first_record(o)));
                }
            },
            Some(at) => {
                let ghost before = self@;
                let ghost k = key@;
                let ghost record = self.entries@[at as int].1@;
                proof {
                    assert(self.index@.contains_key(k));
                    assert(before[k] == record);
                }
                self.entries[at].1.take_in(source, entry_type, fsoid, snapshot_xid);
                proof {
                    assert(self.entries@[at as int].1@ == next_record(record, o));
                    assert forall|i: int| 0 <= i < self.entries@.len() implies {
                        &&& self.index@.contains_key((#[trigger] self.entries@[i]).0@)
                        &&& self.index@[self.entries@[i].0@] == i
                    } by {
                        assert(old(self).index@.contains_key(old(self).entries@[i].0@));
                    }
                    assert(self@ =~= before.insert(k, next_record(record, o)));
                }
            },
        }
    }
}

// ---------------------------------------------------------------------------
// Rows
// ---------------------------------------------------------------------------

/// The winning observation for one relative path.
#[derive(Debug, Clone, PartialEq, Eq)]
pub struct HistoryEntry {
    /// Path relative to the root of each snapshot.
    pub relative_path: String,
    /// Absolute path inside the snapshot that supplied the winning observation.
    pub source_path: String,
    pub entry_type: EntryType,
    pub fsoid: u64,
    pub snapshot_xid: u64,
    pub first_snapshot_xid: u64,
    pub snapshots_seen: u32,
    pub latest_presence: LatestPresence,
    pub observed_types: Vec<EntryType>,
    /// Nearest ancestor that a newer snapshot shows as no directory, so that this
    /// entry cannot be put back at its original place.
    pub ancestor_conflict: Option<String>,
}

/// The mathematical content of a [`HistoryEntry`].
pub struct HistoryRow {
    pub relative_path: Seq<char>,
    pub source_path: Seq<char>,
    pub entry_type: EntryType,
    pub fsoid: u64,
    pub snapshot_xid: u64,
    pub first_snapshot_xid: u64,
    pub snapshots_seen: u32,
    pub latest_presence: LatestPresence,
    pub observed_types: Seq<EntryType>,
    pub ancestor_conflict: Option<Seq<char>>,
}

impl View for HistoryEntry {
    type V = HistoryRow;

    open spec fn view(&self) -> HistoryRow {
        HistoryRow {
            relative_path: self.relative_path@,
            source_path: self.source_path@,
            entry_type: self.entry_type,
            fsoid: self.fsoid,
            snapshot_xid: self.snapshot_xid,
            first_snapshot_xid: self.first_snapshot_xid,
            snapshots_seen: self.snapshots_seen,
            latest_presence: self.latest_presence,
            observed_types: self.observed_types@,
            ancestor_conflict: opt_text(self.ancestor_conflict),
        }
    }
}

impl HistoryEntry {
    /// Whether the path was seen as more than one type.
    pub fn type_conflict(&self) -> (r: bool)
        ensures
            r == (self@.observed_types.len() > 1),
    {
        self.observed_types.len() > 1
    }
}

/// `path`, or a directory above it, is among the prefixes that could not be
/// read; the empty prefix stands for the root of the scan.
pub open spec fn unreadable(path: Seq<char>, incomplete: Set<Seq<char>>) -> bool {
    incomplete.contains(Seq::empty()) || exists|p: Seq<char>| #[trigger]
        incomplete.contains(p) && (p == path || is_above(p, path))
}

/// What is known of a path is from a snapshot newer than `xid`, and no directory.
pub open spec fn blocks(record: PathRecord, xid: u64) -> bool {
    !(record.entry_type is Dir) && record.snapshot_xid > xid
}

/// The nearest directory prefix of `path` that a snapshot newer than `xid` shows as
/// something other than a directory.
pub open spec fn blocking_ancestor(
    known: Map<Seq<char>, PathRecord>,
    path: Seq<char>,
    xid: u64,
) -> Option<Seq<char>>
    decreases path.len(),
{
    match parent(path) {
        None => None,
        Some(above) => {
            proof {
                law_parent_is_longest_prefix(path);
            }
            if known.contains_key(above) && blocks(known[above], xid) {
                Some(above)
            } else {
                blocking_ancestor(known, above, xid)
            }
        },
    }
}

/// What the latest snapshot proves about `path`.
pub open spec fn presence(
    record: PathRecord,
    path: Seq<char>,
    latest: u64,
    incomplete: Set<Seq<char>>,
) -> LatestPresence {
    if record.snapshot_xid == latest {
        LatestPresence::Present
    } else if unreadable(path, incomplete) {
        LatestPresence::Unknown
    } else {
        LatestPresence::Absent
    }
}

/// The row of `path`.
pub open spec fn row_of(
    known: Map<Seq<char>, PathRecord>,
    path: Seq<char>,
    latest: u64,
    incomplete: Set<Seq<char>>,
) -> HistoryRow {
    let record = known[path];
    HistoryRow {
        relative_path: path,
        source_path: record.source_path,
        entry_type: record.entry_type,
        fsoid: record.fsoid,
        snapshot_xid: record.snapshot_xid,
        first_snapshot_xid: record.first_snapshot_xid,
        snapshots_seen: record.snapshots_seen,
        latest_presence: presence(record, path, latest, incomplete),
        observed_types: in_order(record.types),
        ancestor_conflict: blocking_ancestor(known, path, record.snapshot_xid),
    }
}

/// `rows` holds the row of every known path, in the order of the paths.
pub open spec fn are_rows_of(
    rows: Seq<HistoryEntry>,
    known: Map<Seq<char>, PathRecord>,
    latest: u64,
    incomplete: Set<Seq<char>>,
) -> bool {
    &&& forall|i: int|
        0 <= i < rows.len() ==> known.contains_key((#[trigger] rows[i])@.relative_path) && rows[i]@
            == row_of(known, rows[i]@.relative_path, latest, incomplete)
    &&& forall|i: int, j: int|
        0 <= i < j < rows.len() ==> text_lt(
            (#[trigger] rows[i])@.relative_path,
            (#[trigger] rows[j])@.relative_path,
        )
    &&& forall|path: Seq<char>| #[trigger]
        known.contains_key(path) ==> exists|i: int|
            0 <= i < rows.len() && (#[trigger] rows[i])@.relative_path == path
}

/// The prefixes, without slashes at either end.
pub open spec fn clean_set(prefixes: Seq<Seq<char>>) -> Set<Seq<char>> {
    prefixes.map_values(|p: Seq<char>| clean(p)).to_set()
}

fn clean_prefixes(prefixes: &Vec<String>) -> (r: StringHashSet)
    ensures
        r@ == clean_set(texts(prefixes@)),
{
    let mut out = StringHashSet::new();
    let mut i: usize = 0;
    let ghost all = texts(prefixes@).map_values(|p: Seq<char>| clean(p));
    proof {
        assert(all.take(0).to_set() =~= Set::empty());
    }
    while i < prefixes.len()
        invariant
            i <= prefixes@.len(),
            all == texts(prefixes@).map_values(|p: Seq<char>| clean(p)),
            out@ == all.take(i as int).to_set(),
        decreases prefixes@.len() - i,
    {
        let ghost before = out@;
        out.insert(clean_relative_path(prefixes[i].as_str()));
        proof {
            let next = all.take(i + 1);
            assert(next =~= all.take(i as int).push(all[i as int]));
            assert forall|p: Seq<char>|
                next.to_set().contains(p) <==> before.insert(all[i as int]).contains(p) by {
                if before.contains(p) {
                    let k = choose|k: int| 0 <= k < i && all.take(i as int)[k] == p;
                    assert(next[k] == p);
                }
                if p == all[i as int] {
                    assert(next[i as int] == p);
                }
                if next.to_set().contains(p) {
                    let k = choose|k: int| 0 <= k < next.len() && next[k] == p;
                    if k < i {
                        assert(all.take(i as int)[k] == p);
                    }
                }
            }
            assert(next.to_set() =~= before.insert(all[i as int]));
        }
        i += 1;
    }
    proof {
        assert(all.take(i as int) =~= all);
    }
    out
}

fn has_incomplete_ancestor(path: &str, incomplete: &StringHashSet) -> (r: bool)
    ensures
        r == unreadable(path@, incomplete@),
{
    proof {
        reveal_strlit("");
        assert(""@ =~= Seq::<char>::empty());
    }
    if incomplete.contains("") {
        return true;
    }
    let chars = chars_of(path);
    let mut end: usize = chars.len();
    proof {
        assert(chars@.take(end as int) =~= path@);
    }
    loop
        invariant
            chars@ == path@,
            end <= chars@.len(),
            !incomplete@.contains(Seq::<char>::empty()),
            chars@.take(end as int) == path@ || is_above(chars@.take(end as int), path@),
            forall|p: Seq<char>| #[trigger]
                incomplete@.contains(p) && (p == path@ || is_above(p, path@)) ==> p.len() <= end,
        decreases end,
    {
        let current = string_from(&chars, 0, end);
        let ghost here = chars@.take(end as int);
        proof {
            assert(current@ =~= here);
        }
        if incomplete.contains(current.as_str()) {
            return true;
        }
        proof {
            assert forall|p: Seq<char>| #[trigger]
                incomplete@.contains(p) && (p == path@ || is_above(p, path@)) implies p.len()
                < end by {
                if p.len() == end {
                    assert(path@.take(p.len() as int) =~= p);
                }
            }
            law_parent_is_longest_prefix(here);
        }
        match last_slash(&chars, end) {
            None => {
                proof {
                    assert forall|p: Seq<char>| #[trigger] incomplete@.contains(p) implies !(p
                        == path@ || is_above(p, path@)) by {
                        if p == path@ || is_above(p, path@) {
                            assert(here[p.len() as int] == path@[p.len() as int]);
                        }
                    }
                }
                return false;
            },
            Some(slash) => {
                proof {
                    let above = chars@.take(slash as int);
                    assert(here.take(slash as int) =~= above);
                    assert(path@[slash as int] == here[slash as int]);
                    assert forall|p: Seq<char>| #[trigger]
                        incomplete@.contains(p) && (p == path@ || is_above(p, path@)) implies p.len()
                        <= slash by {
                        if p.len() > slash {
                            assert(here[p.len() as int] == path@[p.len() as int]);
                        }
                    }
                }
                end = slash;
            },
        }
    }
}

// ---------------------------------------------------------------------------
// Finishing
// ---------------------------------------------------------------------------

/// The path of entry `i`.
spec fn key_at(entries: Seq<(String, PendingEntry)>, i: int) -> Seq<char> {
    entries[i].0@
}

/// `order` lists the entries `from..to` in the order of their paths.
spec fn is_order_of(
    entries: Seq<(String, PendingEntry)>,
    order: Seq<usize>,
    from: int,
    to: int,
) -> bool {
    &&& forall|i: int| 0 <= i < order.len() ==> from <= #[trigger] order[i] < to
    &&& forall|i: int, j: int|
        0 <= i < j < order.len() ==> text_lt(
            key_at(entries, #[trigger] order[i] as int),
            key_at(entries, #[trigger] order[j] as int),
        )
    &&& forall|x: int| from <= x < to ==> order.contains(#[trigger] (x as usize))
}

/// No two entries have the same path.
spec fn has_distinct_keys(entries: Seq<(String, PendingEntry)>) -> bool {
    forall|i: int, j: int|
        0 <= i < j < entries.len() ==> #[trigger] key_at(entries, i) != #[trigger] key_at(
            entries,
            j,
        )
}

/// All of `order[i..]` goes behind `key`.
spec fn all_behind(
    entries: Seq<(String, PendingEntry)>,
    order: Seq<usize>,
    i: int,
    key: Seq<char>,
) -> bool {
    forall|k: int|
        i <= k < order.len() ==> text_lt(key, key_at(entries, #[trigger] order[k] as int))
}

fn merge(
    entries: &Vec<(String, PendingEntry)>,
    a: Vec<usize>,
    b: Vec<usize>,
    from: usize,
    mid: usize,
    to: usize,
) -> (r: Vec<usize>)
    requires
        from <= mid <= to <= entries@.len(),
        has_distinct_keys(entries@),
        is_order_of(entries@, a@, from as int, mid as int),
        is_order_of(entries@, b@, mid as int, to as int),
    ensures
        is_order_of(entries@, r@, from as int, to as int),
{
    let mut out: Vec<usize> = Vec::new();
    let mut i: usize = 0;
    let mut j: usize = 0;
    while i < a.len() || j < b.len()
        invariant
            from <= mid <= to <= entries@.len(),
            has_distinct_keys(entries@),
            is_order_of(entries@, a@, from as int, mid as int),
            is_order_of(entries@, b@, mid as int, to as int),
            i <= a@.len(),
            j <= b@.len(),
            forall|k: int| 0 <= k < out@.len() ==> from <= #[trigger] out@[k] < to,
            forall|k: int, l: int|
                0 <= k < l < out@.len() ==> text_lt(
                    key_at(entries@, #[trigger] out@[k] as int),
                    key_at(entries@, #[trigger] out@[l] as int),
                ),
            forall|k: int|
                0 <= k < out@.len() ==> all_behind(
                    entries@,
                    a@,
                    i as int,
                    key_at(entries@, #[trigger] out@[k] as int),
                ) && all_behind(entries@, b@, j as int, key_at(entries@, out@[k] as int)),
            forall|k: int| 0 <= k < i ==> out@.contains(#[trigger] a@[k]),
            forall|k: int| 0 <= k < j ==> out@.contains(#[trigger] b@[k]),
        decreases a@.len() - i + b@.len() - j,
    {
        let ghost before = out@;
        let take_a = if i == a.len() {
            false
        } else if j == b.len() {
            true
        } else {
            let x: usize = a[i];
            let y: usize = b[j];
            str_less(entries[x].0.as_str(), entries[y].0.as_str())
        };
        let ghost taken = if take_a {
            a@[i as int]
        } else {
            b@[j as int]
        };
        proof {
            let key = key_at(entries@, taken as int);
            if i < a@.len() && j < b@.len() {
                let x = a@[i as int];
                let y = b@[j as int];
                assert(key_at(entries@, x as int) != key_at(entries@, y as int));
                law_text_order_is_strict_and_total(
                    key_at(entries@, x as int),
                    key_at(entries@, y as int),
                    key,
                );
            }
            assert forall|k: int|
                (if take_a {
                    i + 1
                } else {
                    i as int
                }) <= k < a@.len() implies text_lt(key, key_at(entries@, #[trigger] a@[k] as int)) by {
                if !take_a {
                    let x = key_at(entries@, a@[i as int] as int);
                    if k > i {
                        law_text_order_is_strict_and_total(key, x, key_at(entries@, a@[k] as int));
                    }
                }
            }
            assert forall|k: int|
                (if take_a {
                    j as int
                } else {
                    j + 1
                }) <= k < b@.len() implies text_lt(key, key_at(entries@, #[trigger] b@[k] as int)) by {
                if take_a {
                    let y = key_at(entries@, b@[j as int] as int);
                    if k > j {
                        law_text_order_is_strict_and_total(key, y, key_at(entries@, b@[k] as int));
                    }
                }
            }
            assert forall|x: usize| before.contains(x) implies before.push(taken).contains(x) by {
                let k = choose|k: int| 0 <= k < before.len() && before[k] == x;
                assert(before.push(taken)[k] == x);
            }
            assert(before.push(taken)[before.len() as int] == taken);
        }
        if take_a {
            out.push(a[i]);
            i += 1;
        } else {
            out.push(b[j]);
            j += 1;
        }
        proof {
            assert(out@ == before.push(taken));
        }
    }
    proof {
        assert forall|x: int| from <= x < to implies out@.contains(#[trigger] (x as usize)) by {
            if x < mid {
                assert(a@.contains(x as usize));
                let k = choose|k: int| 0 <= k < a@.len() && a@[k] == x as usize;
                assert(out@.contains(a@[k]));
            } else {
                assert(b@.contains(x as usize));
                let k = choose|k: int| 0 <= k < b@.len() && b@[k] == x as usize;
                assert(out@.contains(b@[k]));
            }
        }
    }
    out
}

/// The entries `from..to` in the order of their paths.
fn path_order(entries: &Vec<(String, PendingEntry)>, from: usize, to: usize) -> (r: Vec<usize>)
    requires
        from <= to <= entries@.len(),
        has_distinct_keys(entries@),
    ensures
        is_order_of(entries@, r@, from as int, to as int),
    decreases to - from,
{
    let n: usize = to - from;
    if n == 0 {
        Vec::new()
    } else if n == 1 {
        let mut one: Vec<usize> = Vec::new();
        one.push(from);
        proof {
            assert(one@[0] == from);
        }
        one
    } else {
        let mid: usize = from + n / 2;
        let a = path_order(entries, from, mid);
        let b = path_order(entries, mid, to);
        merge(entries, a, b, from, mid, to)
    }
}

proof fn lemma_filter_grows(types: Set<EntryType>, i: int)
    requires
        0 <= i < all_types().len(),
    ensures
        ({
            let wanted = |t: EntryType| types.contains(t);
            all_types().take(i + 1).filter(wanted) == if types.contains(all_types()[i]) {
                all_types().take(i).filter(wanted).push(all_types()[i])
            } else {
                all_types().take(i).filter(wanted)
            }
        }),
{
    reveal(Seq::filter);
    assert(all_types().take(i + 1).drop_last() =~= all_types().take(i));
    assert(all_types().take(i + 1).last() == all_types()[i]);
}

fn types_of_mask(mask: u16) -> (r: Vec<EntryType>)
    ensures
        r@ == in_order(types_in(mask)),
{
    let all: [EntryType; 9] = [
        EntryType::File,
        EntryType::Dir,
        EntryType::Symlink,
        EntryType::Fifo,
        EntryType::Char,
        EntryType::Block,
        EntryType::Socket,
        EntryType::Whiteout,
        EntryType::Unknown,
    ];
    let ghost types = types_in(mask);
    let mut out: Vec<EntryType> = Vec::new();
    let mut i: usize = 0;
    proof {
        assert(all@ =~= all_types());
        reveal(Seq::filter);
        assert(all_types().take(0) =~= Seq::empty());
    }
    while i < 9
        invariant
            i <= 9,
            all@ == all_types(),
            types == types_in(mask),
            out@ == all_types().take(i as int).filter(|t: EntryType| types.contains(t)),
        decreases 9 - i,
    {
        let t = all[i];
        proof {
            lemma_filter_grows(types, i as int);
        }
        if mask & t.mask() != 0 {
            out.push(t);
        }
        i += 1;
    }
    proof {
        assert(all_types().take(9) =~= all_types());
    }
    out
}

impl HistoryUnion {
    fn find(&self, path: &str) -> (r: Option<usize>)
        requires
            self.well_formed(),
        ensures
            match r {
                Some(at) => at < self.entries@.len() && self@.contains_key(path@) && self@[path@]
                    == self.entries@[at as int].1@,
                None => !self@.contains_key(path@),
            },
    {
        match self.index.get(path) {
            Some(at) => {
                proof {
                    assert(self.index@.contains_key(path@));
                }
                Some(*at)
            },
            None => None,
        }
    }

    fn nearest_block(&self, path: &str, xid: u64) -> (r: Option<String>)
        requires
            self.well_formed(),
        ensures
            opt_text(r) == blocking_ancestor(self@, path@, xid),
    {
        let chars = chars_of(path);
        let mut end: usize = chars.len();
        proof {
            assert(chars@.take(end as int) =~= path@);
        }
        loop
            invariant
                self.well_formed(),
                chars@ == path@,
                end <= chars@.len(),
                blocking_ancestor(self@, path@, xid) == blocking_ancestor(
                    self@,
                    chars@.take(end as int),
                    xid,
                ),
            decreases end,
        {
            match last_slash(&chars, end) {
                None => {
                    return None;
                },
                Some(slash) => {
                    let above = string_from(&chars, 0, slash);
                    proof {
                        assert(above@ =~= chars@.take(slash as int));
                    }
                    match self.find(above.as_str()) {
                        Some(at) => {
                            let record = &self.entries[at].1;
                            if record.entry_type != EntryType::Dir && record.snapshot_xid > xid {
                                return Some(above);
                            }
                        },
                        None => {},
                    }
                    end = slash;
                },
            }
        }
    }

    /// Ends the union against the latest snapshot: one row for each path, in the
    /// order of the paths. A path that the latest snapshot does not show is
    /// `Unknown`, not `Absent`, where it lies at or below a prefix that the latest
    /// scan could not read.
    pub fn finish(
        self,
        latest_snapshot_xid: u64,
        latest_incomplete_prefixes: &Vec<String>,
    ) -> (r: Vec<HistoryEntry>)
        requires
            self.well_formed(),
        ensures
            are_rows_of(
                r@,
                self@,
                latest_snapshot_xid,
                clean_set(texts(latest_incomplete_prefixes@)),
            ),
    {
        let incomplete = clean_prefixes(latest_incomplete_prefixes);
        proof {
            assert forall|i: int, j: int| 0 <= i < j < self.entries@.len() implies #[trigger] key_at(
                self.entries@,
                i,
            ) != #[trigger] key_at(self.entries@, j) by {
                assert(self.index@[self.entries@[i].0@] == i);
                assert(self.index@[self.entries@[j].0@] == j);
            }
        }
        let order = path_order(&self.entries, 0, self.entries.len());
        let mut rows: Vec<HistoryEntry> = Vec::new();
        let mut i: usize = 0;
        while i < order.len()
            invariant
                self.well_formed(),
                is_order_of(self.entries@, order@, 0, self.entries@.len() as int),
                i <= order@.len(),
                rows@.len() == i,
                incomplete@ == clean_set(texts(latest_incomplete_prefixes@)),
                forall|k: int|
                    0 <= k < i ==> (#[trigger] rows@[k])@.relative_path == key_at(
                        self.entries@,
                        order@[k] as int,
                    ),
                forall|k: int|
                    0 <= k < i ==> self@.contains_key((#[trigger] rows@[k])@.relative_path)
                        && rows@[k]@ == row_of(
                        self@,
                        rows@[k]@.relative_path,
                        latest_snapshot_xid,
                        incomplete@,
                    ),
            decreases order@.len() - i,
        {
            let at: usize = order[i];
            let path = self.entries[at].0.clone();
            proof {
                assert(self.index@[self.entries@[at as int].0@] == at);
                assert(self@.contains_key(path@));
                assert(self@[path@] == self.entries@[at as int].1@);
            }
            let entry = &self.entries[at].1;
            let latest_presence = if entry.snapshot_xid == latest_snapshot_xid {
                LatestPresence::Present
            } else if has_incomplete_ancestor(path.as_str(), &incomplete) {
                LatestPresence::Unknown
            } else {
                LatestPresence::Absent
            };
            let ancestor_conflict = self.nearest_block(path.as_str(), entry.snapshot_xid);
            rows.push(
                HistoryEntry {
                    relative_path: path,
                    source_path: entry.source_path.clone(),
                    entry_type: entry.entry_type,
                    fsoid: entry.fsoid,
                    snapshot_xid: entry.snapshot_xid,
                    first_snapshot_xid: entry.first_snapshot_xid,
                    snapshots_seen: entry.snapshots_seen,
                    latest_presence,
                    observed_types: types_of_mask(entry.type_mask),
                    ancestor_conflict,
                },
            );
            i += 1;
        }
        proof {
            assert forall|path: Seq<char>| #[trigger] self@.contains_key(path) implies exists|k: int|
                0 <= k < rows@.len() && (#[trigger] rows@[k])@.relative_path == path by {
                assert(self.index@.contains_key(path));
                let at = self.index@[path];
                assert(order@.contains((at as int) as usize));
                let k = choose|k: int| 0 <= k < order@.len() && order@[k] == at;
                assert(rows@[k]@.relative_path == path);
            }
            assert forall|a: int, b: int| 0 <= a < b < rows@.len() implies text_lt(
                (#[trigger] rows@[a])@.relative_path,
                (#[trigger] rows@[b])@.relative_path,
            ) by {
                assert(text_lt(
                    key_at(self.entries@, order@[a] as int),
                    key_at(self.entries@, order@[b] as int),
                ));
            }
        }
        rows
    }
}

// ---------------------------------------------------------------------------
// Laws
// ---------------------------------------------------------------------------

/// Observation `i` of `all` is about the path `key`.
pub open spec fn is_about(all: Seq<Observation>, key: Seq<char>, i: int) -> bool {
    0 <= i < all.len() && clean(all[i].relative_path) == key
}

/// No observation of `key` is newer than observation `i`, nor goes before it in
/// the same snapshot.
pub open spec fn is_newest(all: Seq<Observation>, key: Seq<char>, i: int) -> bool {
    &&& is_about(all, key, i)
    &&& forall|j: int| #[trigger]
        is_about(all, key, j) ==> all[j].snapshot_xid < all[i].snapshot_xid || (
        all[j].snapshot_xid == all[i].snapshot_xid && !goes_before(
            all[j].entry_type,
            all[j].fsoid,
            all[i].entry_type,
            all[i].fsoid,
        ))
}

/// `r` shows observation `i` of `all` as its winner.
pub open spec fn shows(r: PathRecord, o: Observation) -> bool {
    &&& r.source_path == kept_source(o)
    &&& r.entry_type == o.entry_type
    &&& r.fsoid == o.fsoid
    &&& r.snapshot_xid == o.snapshot_xid
}

proof fn lemma_is_about_grows(all: Seq<Observation>, key: Seq<char>, i: int)
    requires
        all.len() > 0,
    ensures
        is_about(all, key, i) <==> is_about(all.drop_last(), key, i) || (i == all.len() - 1
            && clean(all.last().relative_path) == key),
{
}

/// For every path that was observed, the newest observation wins: the record shows
/// an observation that no other one of that path outdoes. The first snapshot is
/// the oldest one that showed the path, and the types are exactly those under
/// which it was seen. A path that was never observed has no record.
pub proof fn law_newest_observation_wins(all: Seq<Observation>, key: Seq<char>)
    ensures
        known_after(all).contains_key(key) <==> exists|i: int| is_about(all, key, i),
        known_after(all).contains_key(key) ==> {
            let r = known_after(all)[key];
            &&& exists|i: int| #[trigger] is_newest(all, key, i) && shows(r, all[i])
            &&& exists|i: int| #[trigger]
                is_about(all, key, i) && r.first_snapshot_xid == all[i].snapshot_xid
            &&& forall|i: int| #[trigger]
                is_about(all, key, i) ==> r.first_snapshot_xid <= all[i].snapshot_xid
                    && r.types.contains(all[i].entry_type)
            &&& forall|t: EntryType| #[trigger]
                r.types.contains(t) ==> exists|i: int| #[trigger]
                    is_about(all, key, i) && all[i].entry_type == t
        },
    decreases all.len(),
{
    if all.len() > 0 {
        let front = all.drop_last();
        let n = all.len() - 1;
        let o = all.last();
        law_newest_observation_wins(front, key);
        assert forall|i: int| is_about(all, key, i) <==> is_about(front, key, i) || (i == n
            && clean(o.relative_path) == key) by {
            lemma_is_about_grows(all, key, i);
        }
        let old_known = known_after(front).contains_key(key);
        if old_known {
            let r = known_after(front)[key];
            let i = choose|i: int| #[trigger] is_newest(front, key, i) && shows(r, front[i]);
            let f = choose|f: int| #[trigger]
                is_about(front, key, f) && r.first_snapshot_xid == front[f].snapshot_xid;
            assert(is_about(all, key, i));
            assert(is_about(all, key, f));
            let mine = clean(o.relative_path) == key;
            let next = known_after(all)[key];
            if mine {
                assert(is_about(all, key, n));
                assert(next == next_record(r, o));
                if replaces(o, r) {
                    assert(is_newest(all, key, n));
                    assert(shows(next, all[n]));
                } else {
                    assert(is_newest(all, key, i));
                    assert(shows(next, all[i]));
                }
            } else {
                assert(next == r);
                assert(is_newest(all, key, i));
            }
            assert forall|t: EntryType| #[trigger] next.types.contains(t) implies exists|k: int|
                #[trigger] is_about(all, key, k) && all[k].entry_type == t by {
                if r.types.contains(t) {
                    let k = choose|k: int| #[trigger]
                        is_about(front, key, k) && front[k].entry_type == t;
                    assert(is_about(all, key, k));
                } else {
                    assert(is_about(all, key, n));
                }
            }
        } else if clean(o.relative_path) == key {
            assert(is_about(all, key, n));
            let next = known_after(all)[key];
            assert(next == first_record(o));
            assert forall|j: int| is_about(all, key, j) implies j == n by {
                if is_about(front, key, j) {
                    assert(known_after(front).contains_key(key));
                }
            }
            assert(is_newest(all, key, n) && shows(next, all[n]));
        }
    }
}

/// The observations of `key` that may win all keep the same source path.
pub open spec fn one_source(all: Seq<Observation>, key: Seq<char>) -> bool {
    forall|i: int, j: int| #[trigger]
        is_newest(all, key, i) && #[trigger] is_newest(all, key, j) ==> kept_source(all[i])
            == kept_source(all[j])
}

/// What wins does not depend on the order of the observations: the same set of
/// observations gives the same winning type, identity and snapshot, the same first
/// snapshot and the same types for every path. It gives the same source path, too,
/// unless one snapshot shows one object twice at the same path from different places.
pub proof fn law_order_of_observations_does_not_matter(
    a: Seq<Observation>,
    b: Seq<Observation>,
    key: Seq<char>,
)
    requires
        forall|o: Observation| a.contains(o) <==> b.contains(o),
    ensures
        known_after(a).contains_key(key) == known_after(b).contains_key(key),
        known_after(a).contains_key(key) ==> {
            let x = known_after(a)[key];
            let y = known_after(b)[key];
            &&& x.entry_type == y.entry_type
            &&& x.fsoid == y.fsoid
            &&& x.snapshot_xid == y.snapshot_xid
            &&& x.first_snapshot_xid == y.first_snapshot_xid
            &&& x.types == y.types
            &&& one_source(a, key) ==> x.source_path == y.source_path
        },
{
    law_newest_observation_wins(a, key);
    law_newest_observation_wins(b, key);
    assert forall|i: int| is_about(a, key, i) implies exists|j: int|
        is_about(b, key, j) && b[j] == a[i] by {
        assert(a.contains(a[i]));
        let j = choose|j: int| 0 <= j < b.len() && b[j] == a[i];
        assert(is_about(b, key, j));
    }
    assert forall|j: int| is_about(b, key, j) implies exists|i: int|
        is_about(a, key, i) && a[i] == b[j] by {
        assert(b.contains(b[j]));
        let i = choose|i: int| 0 <= i < a.len() && a[i] == b[j];
        assert(is_about(a, key, i));
    }
    if known_after(a).contains_key(key) {
        let x = known_after(a)[key];
        let y = known_after(b)[key];
        let i = choose|i: int| #[trigger] is_newest(a, key, i) && shows(x, a[i]);
        let j = choose|j: int| #[trigger] is_newest(b, key, j) && shows(y, b[j]);
        let ij = choose|k: int| is_about(b, key, k) && b[k] == a[i];
        let ji = choose|k: int| is_about(a, key, k) && a[k] == b[j];
        assert(is_about(b, key, ij));
        assert(is_about(a, key, ji));
        let fa = choose|k: int| #[trigger]
            is_about(a, key, k) && x.first_snapshot_xid == a[k].snapshot_xid;
        let fb = choose|k: int| #[trigger]
            is_about(b, key, k) && y.first_snapshot_xid == b[k].snapshot_xid;
        let fab = choose|k: int| is_about(b, key, k) && b[k] == a[fa];
        let fba = choose|k: int| is_about(a, key, k) && a[k] == b[fb];
        assert(is_about(b, key, fab));
        assert(is_about(a, key, fba));
        assert forall|t: EntryType| x.types.contains(t) <==> y.types.contains(t) by {
            if x.types.contains(t) {
                let k = choose|k: int| #[trigger] is_about(a, key, k) && a[k].entry_type == t;
                let l = choose|l: int| is_about(b, key, l) && b[l] == a[k];
                assert(is_about(b, key, l));
            }
            if y.types.contains(t) {
                let k = choose|k: int| #[trigger] is_about(b, key, k) && b[k].entry_type == t;
                let l = choose|l: int| is_about(a, key, l) && a[l] == b[k];
                assert(is_about(a, key, l));
            }
        }
        assert(x.types =~= y.types);
        assert(is_newest(a, key, ji)) by {
            assert forall|k: int| #[trigger] is_about(a, key, k) implies a[k].snapshot_xid
                < a[ji].snapshot_xid || (a[k].snapshot_xid == a[ji].snapshot_xid && !goes_before(
                a[k].entry_type,
                a[k].fsoid,
                a[ji].entry_type,
                a[ji].fsoid,
            )) by {
                let l = choose|l: int| is_about(b, key, l) && b[l] == a[k];
                assert(is_about(b, key, l));
            }
        }
    }
}

/// The snapshots in which `key` was observed.
pub open spec fn snapshots_of(all: Seq<Observation>, key: Seq<char>) -> Set<u64>
    decreases all.len(),
{
    if all.len() == 0 {
        Set::empty()
    } else if clean(all.last().relative_path) == key {
        snapshots_of(all.drop_last(), key).insert(all.last().snapshot_xid)
    } else {
        snapshots_of(all.drop_last(), key)
    }
}

/// Observed oldest snapshot first, a path's count is the number of snapshots that
/// showed it, however often each one did; the count stops at its largest value.
pub proof fn law_snapshots_are_counted_once(all: Seq<Observation>, key: Seq<char>)
    requires
        forall|i: int, j: int|
            0 <= i <= j < all.len() ==> all[i].snapshot_xid <= all[j].snapshot_xid,
    ensures
        snapshots_of(all, key).finite(),
        known_after(all).contains_key(key) <==> snapshots_of(all, key).len() > 0,
        known_after(all).contains_key(key) ==> {
            let seen = snapshots_of(all, key).len();
            let r = known_after(all)[key];
            &&& r.snapshots_seen == if seen < u32::MAX {
                seen
            } else {
                u32::MAX as nat
            }
            &&& snapshots_of(all, key).contains(r.last_counted_snapshot_xid)
            &&& forall|xid: u64| #[trigger]
                snapshots_of(all, key).contains(xid) ==> xid <= r.last_counted_snapshot_xid
            &&& r.last_counted_snapshot_xid <= all.last().snapshot_xid
        },
    decreases all.len(),
{
    if all.len() > 0 {
        let front = all.drop_last();
        assert forall|i: int, j: int|
            0 <= i <= j < front.len() implies front[i].snapshot_xid <= front[j].snapshot_xid by {
            assert(all[i].snapshot_xid <= all[j].snapshot_xid);
        }
        law_snapshots_are_counted_once(front, key);
        let before = snapshots_of(front, key);
        if front.len() > 0 {
            assert(all[front.len() - 1].snapshot_xid <= all[front.len() as int].snapshot_xid);
            assert(front.last() == all[front.len() - 1]);
        }
        if clean(all.last().relative_path) == key && !known_after(front).contains_key(key) {
            assert(before =~= Set::empty());
        }
    }
}

/// A path that lies at or below a prefix which the latest scan could not read is
/// never reported as absent, and one that the latest snapshot shows is always
/// reported as present.
pub proof fn law_unreadable_is_not_absent(
    known: Map<Seq<char>, PathRecord>,
    path: Seq<char>,
    latest: u64,
    incomplete: Set<Seq<char>>,
)
    ensures
        ({
            let row = row_of(known, path, latest, incomplete);
            &&& unreadable(path, incomplete) ==> row.latest_presence != LatestPresence::Absent
            &&& known[path].snapshot_xid == latest <==> row.latest_presence
                == LatestPresence::Present
        }),
{
}

/// A blocked path names the nearest of the directories above it that a newer snapshot
/// shows as something else; a path that names none has no such directory above it.
pub proof fn law_nearest_blocking_ancestor(
    known: Map<Seq<char>, PathRecord>,
    path: Seq<char>,
    xid: u64,
)
    ensures
        match blocking_ancestor(known, path, xid) {
            Some(above) => {
                &&& is_above(above, path)
                &&& known.contains_key(above)
                &&& known[above].entry_type != EntryType::Dir
                &&& known[above].snapshot_xid > xid
                &&& forall|p: Seq<char>|
                    is_above(p, path) && p.len() > above.len() && #[trigger] known.contains_key(p)
                        ==> known[p].entry_type == EntryType::Dir || known[p].snapshot_xid <= xid
            },
            None => forall|p: Seq<char>|
                is_above(p, path) && #[trigger] known.contains_key(p) ==> known[p].entry_type
                    == EntryType::Dir || known[p].snapshot_xid <= xid,
        },
    decreases path.len(),
{
    law_parent_is_longest_prefix(path);
    match parent(path) {
        None => {},
        Some(up) => {
            law_nearest_blocking_ancestor(known, up, xid);
            assert forall|p: Seq<char>| #[trigger] is_above(p, path) implies p == up || is_above(
                p,
                up,
            ) by {
                if p.len() == up.len() {
                    assert(p =~= up);
                } else if p.len() < up.len() {
                    assert(up.take(p.len() as int) =~= path.take(p.len() as int));
                    assert(up[p.len() as int] == path[p.len() as int]);
                }
            }
            assert forall|p: Seq<char>| is_above(p, up) implies is_above(p, path) by {
                assert(path.take(p.len() as int) =~= up.take(p.len() as int));
                assert(up[p.len() as int] == path[p.len() as int]);
            }
        },
    }
}

/// The texts stand in strict order.
pub open spec fn is_strictly_sorted(s: Seq<Seq<char>>) -> bool {
    forall|i: int, j: int| 0 <= i < j < s.len() ==> text_lt(#[trigger] s[i], #[trigger] s[j])
}

proof fn lemma_sorted_lists_agree(a: Seq<Seq<char>>, b: Seq<Seq<char>>, n: int)
    requires
        0 <= n <= a.len(),
        is_strictly_sorted(a),
        is_strictly_sorted(b),
        forall|x: Seq<char>| #[trigger] a.contains(x) <==> b.contains(x),
    ensures
        n <= b.len(),
        a.take(n) == b.take(n),
    decreases n,
{
    if n > 0 {
        lemma_sorted_lists_agree(a, b, n - 1);
        let k = n - 1;
        assert(a.contains(a[k]));
        let j = choose|j: int| 0 <= j < b.len() && b[j] == a[k];
        law_text_order_is_strict_and_total(a[k], a[k], a[k]);
        if j < k {
            assert(b.take(k)[j] == a.take(k)[j]);
            assert(text_lt(a[j], a[k]));
        }
        if j > k {
            assert(b.contains(b[k]));
            assert(a.contains(b[k]));
            let l = choose|l: int| 0 <= l < a.len() && a[l] == b[k];
            assert(text_lt(b[k], b[j]));
            law_text_order_is_strict_and_total(b[k], a[k], b[k]);
            if l > k {
                assert(text_lt(a[k], a[l]));
            } else if l < k {
                assert(b.take(k)[l] == a.take(k)[l]);
                assert(text_lt(b[l], b[k]));
            }
        }
        assert(a.take(n) =~= a.take(k).push(a[k]));
        assert(b.take(n) =~= b.take(k).push(b[k]));
    } else {
        assert(a.take(0) =~= b.take(0));
    }
}

proof fn lemma_row_paths(
    rows: Seq<HistoryEntry>,
    known: Map<Seq<char>, PathRecord>,
    latest: u64,
    incomplete: Set<Seq<char>>,
    x: Seq<char>,
)
    requires
        are_rows_of(rows, known, latest, incomplete),
    ensures
        row_paths(rows).contains(x) <==> known.contains_key(x),
{
    let paths = row_paths(rows);
    if paths.contains(x) {
        let i = choose|i: int| 0 <= i < paths.len() && paths[i] == x;
        assert(rows[i]@.relative_path == x);
    }
    if known.contains_key(x) {
        let i = choose|i: int| 0 <= i < rows.len() && (#[trigger] rows[i])@.relative_path == x;
        assert(paths[i] == x);
    }
}

/// The paths of the rows.
pub open spec fn row_paths(rows: Seq<HistoryEntry>) -> Seq<Seq<char>> {
    Seq::new(rows.len(), |i: int| rows[i]@.relative_path)
}

/// The rows of a union are determined: two lists of rows of the same union are
/// equal, row for row.
pub proof fn law_rows_are_determined(
    a: Seq<HistoryEntry>,
    b: Seq<HistoryEntry>,
    known: Map<Seq<char>, PathRecord>,
    latest: u64,
    incomplete: Set<Seq<char>>,
)
    requires
        are_rows_of(a, known, latest, incomplete),
        are_rows_of(b, known, latest, incomplete),
    ensures
        a.len() == b.len(),
        forall|i: int| 0 <= i < a.len() ==> (#[trigger] a[i])@ == b[i]@,
{
    let x = row_paths(a);
    let y = row_paths(b);
    assert forall|p: Seq<char>| #[trigger] x.contains(p) <==> y.contains(p) by {
        lemma_row_paths(a, known, latest, incomplete, p);
        lemma_row_paths(b, known, latest, incomplete, p);
    }
    assert(is_strictly_sorted(x));
    assert(is_strictly_sorted(y));
    lemma_sorted_lists_agree(x, y, x.len() as int);
    assert forall|p: Seq<char>| #[trigger] y.contains(p) <==> x.contains(p) by {
        assert(x.contains(p) <==> y.contains(p));
    }
    lemma_sorted_lists_agree(y, x, y.len() as int);
    assert forall|i: int| 0 <= i < a.len() implies (#[trigger] a[i])@ == b[i]@ by {
        assert(x.take(x.len() as int)[i] == y.take(x.len() as int)[i]);
        assert(x[i] == y[i]);
    }
}

// ---------------------------------------------------------------------------
// Audit keys
// ---------------------------------------------------------------------------

/// The lower case of one character, which may be more than one.
pub uninterp spec fn lowercase_of(c: char) -> Seq<char>;

/// `char::to_lowercase`: the lower case of `c` by the Unicode tables, which is the
/// same on every machine.
#[verifier::external_body]
fn lowercase(c: char) -> (r: Vec<char>)
    ensures
        r@ == lowercase_of(c),
{
    c.to_lowercase().collect()
}

/// The characters of `parts`, one part after another.
pub open spec fn run_together(parts: Seq<Seq<char>>) -> Seq<char>
    decreases parts.len(),
{
    if parts.len() == 0 {
        Seq::empty()
    } else {
        run_together(parts.drop_last()) + parts.last()
    }
}

/// Puts the characters of `parts` into one text.
pub fn text_of_parts(parts: &Vec<Vec<char>>) -> (r: String)
    ensures
        r@ == run_together(Seq::new(parts@.len(), |i: int| parts@[i]@)),
{
    let mut out: Vec<char> = Vec::new();
    let ghost all = Seq::new(parts@.len(), |i: int| parts@[i]@);
    let mut i: usize = 0;
    proof {
        assert(all.take(0) =~= Seq::empty());
    }
    while i < parts.len()
        invariant
            i <= parts@.len(),
            all == Seq::new(parts@.len(), |i: int| parts@[i]@),
            out@ == run_together(all.take(i as int)),
        decreases parts@.len() - i,
    {
        let ghost before = out@;
        let mut k: usize = 0;
        while k < parts[i].len()
            invariant
                i < parts@.len(),
                k <= parts@[i as int]@.len(),
                out@ =~= before + parts@[i as int]@.take(k as int),
            decreases parts@[i as int]@.len() - k,
        {
            out.push(parts[i][k]);
            k += 1;
        }
        proof {
            assert(parts@[i as int]@.take(k as int) =~= parts@[i as int]@);
            assert(all.take(i + 1).drop_last() =~= all.take(i as int));
            assert(all.take(i + 1).last() == parts@[i as int]@);
        }
        i += 1;
    }
    proof {
        assert(all.take(i as int) =~= all);
    }
    string_of(&out)
}

/// The audit key of a path: the path without slashes at either end, in lower case.
pub open spec fn collision_key(path: Seq<char>) -> Seq<char> {
    run_together(clean(path).map_values(|c: char| lowercase_of(c)))
}

/// An audit key for finding paths that may collide on a destination with other
/// rules. It is lower case only, neither Unicode normalization nor full case
/// folding, and never the key of the union.
pub fn portable_collision_key(path: &str) -> (r: String)
    ensures
        r@ == collision_key(path@),
{
    let cleaned = clean_relative_path(path);
    let chars = chars_of(cleaned.as_str());
    let mut parts: Vec<Vec<char>> = Vec::new();
    let mut i: usize = 0;
    while i < chars.len()
        invariant
            i <= chars@.len(),
            parts@.len() == i,
            forall|k: int| 0 <= k < i ==> (#[trigger] parts@[k])@ == lowercase_of(chars@[k]),
        decreases chars@.len() - i,
    {
        parts.push(lowercase(chars[i]));
        i += 1;
    }
    proof {
        assert(Seq::new(parts@.len(), |i: int| parts@[i]@) =~= clean(path@).map_values(
            |c: char| lowercase_of(c),
        ));
    }
    text_of_parts(&parts)
}

// ---------------------------------------------------------------------------
// Laws on entries and rows
// ---------------------------------------------------------------------------

/// Within one snapshot a file goes before a directory, this before a symbolic link, and so
/// on in the order of the types; of two entries of one type the one with the smaller
/// identity does.
pub proof fn law_order_within_a_snapshot(t: EntryType, a: u64, b: u64)
    ensures
        goes_before(EntryType::File, a, EntryType::Dir, b),
        goes_before(EntryType::Dir, a, EntryType::Symlink, b),
        goes_before(EntryType::Symlink, a, EntryType::Fifo, b),
        goes_before(EntryType::Fifo, a, EntryType::Char, b),
        goes_before(EntryType::Char, a, EntryType::Block, b),
        goes_before(EntryType::Block, a, EntryType::Socket, b),
        goes_before(EntryType::Socket, a, EntryType::Whiteout, b),
        goes_before(EntryType::Whiteout, a, EntryType::Unknown, b),
        goes_before(t, a, t, b) <==> a < b,
{
}

/// The order within a snapshot is strict, and of two entries that differ one goes before
/// the other.
pub proof fn law_order_within_a_snapshot_is_total(
    x: (EntryType, u64),
    y: (EntryType, u64),
    z: (EntryType, u64),
)
    ensures
        !goes_before(x.0, x.1, x.0, x.1),
        goes_before(x.0, x.1, y.0, y.1) && goes_before(y.0, y.1, z.0, z.1) ==> goes_before(
            x.0,
            x.1,
            z.0,
            z.1,
        ),
        x == y || goes_before(x.0, x.1, y.0, y.1) || goes_before(y.0, y.1, x.0, x.1),
{
}

/// Files and symbolic links keep the path that they were seen at; nothing else has one.
pub proof fn law_only_files_and_links_keep_their_source(o: Observation)
    ensures
        o.entry_type is File || o.entry_type is Symlink ==> kept_source(o) == o.source_path,
        !(o.entry_type is File) && !(o.entry_type is Symlink) ==> kept_source(o).len() == 0,
        o.entry_type.leaf() <==> o.entry_type is File || o.entry_type is Symlink,
{
}

/// A path is taken without the slashes at its ends and is otherwise as it was; cleaning it
/// twice changes nothing more.
pub proof fn law_clean_paths(path: Seq<char>)
    ensures
        ({
            let kept = clean(path);
            &&& kept.len() > 0 ==> kept[0] != '/' && kept[kept.len() - 1] != '/'
            &&& exists|at: int|
                {
                    &&& 0 <= at <= path.len() - kept.len()
                    &&& kept == #[trigger] path.subrange(at, at + kept.len() as int)
                    &&& forall|i: int| 0 <= i < at ==> path[i] == '/'
                    &&& forall|i: int| at + kept.len() <= i < path.len() ==> path[i] == '/'
                }
            &&& clean(kept) == kept
        }),
{
    let front = without_leading_slashes(path);
    let kept = clean(path);
    law_leading_slashes_are_cut(path);
    law_trailing_slashes_are_cut(front);
    let at = path.len() - front.len();
    assert(kept == path.subrange(at, at + kept.len() as int)) by {
        assert(front.take(kept.len() as int) =~= path.subrange(at, at + kept.len() as int));
    }
    assert forall|i: int| at + kept.len() <= i < path.len() implies path[i] == '/' by {
        assert(front[i - at] == path[i]);
    }
    if kept.len() > 0 {
        assert(kept[0] == front[0]);
    }
    assert(without_leading_slashes(kept) == kept);
    assert(without_trailing_slashes(kept) == kept);
}

/// What the latest snapshot shows is present. A path that it does not show is unknown where
/// the scan could not read its root, the path or a directory above it, and absent otherwise.
pub proof fn law_presence_is_told_by_the_latest_scan(
    record: PathRecord,
    path: Seq<char>,
    latest: u64,
    incomplete: Set<Seq<char>>,
)
    ensures
        ({
            let hidden = exists|n: int|
                0 <= n <= path.len() && #[trigger] incomplete.contains(path.take(n)) && (n == 0
                    || n == path.len() || path[n] == '/');
            let told = presence(record, path, latest, incomplete);
            &&& told is Present <==> record.snapshot_xid == latest
            &&& told is Unknown <==> record.snapshot_xid != latest && hidden
            &&& told is Absent <==> record.snapshot_xid != latest && !hidden
        }),
{
    let hidden = exists|n: int|
        0 <= n <= path.len() && #[trigger] incomplete.contains(path.take(n)) && (n == 0 || n
            == path.len() || path[n] == '/');
    assert(path.take(0) =~= Seq::empty());
    assert(path.take(path.len() as int) =~= path);
    if hidden {
        let n = choose|n: int|
            0 <= n <= path.len() && #[trigger] incomplete.contains(path.take(n)) && (n == 0 || n
                == path.len() || path[n] == '/');
        let p = path.take(n);
        if 0 < n < path.len() {
            assert(p.len() == n);
            assert(is_above(p, path));
        }
        assert(unreadable(path, incomplete));
    }
    if unreadable(path, incomplete) {
        if incomplete.contains(Seq::empty()) {
            assert(incomplete.contains(path.take(0)));
        } else {
            let p = choose|p: Seq<char>| #[trigger]
                incomplete.contains(p) && (p == path || is_above(p, path));
            if p == path {
                assert(incomplete.contains(path.take(path.len() as int)));
            } else {
                assert(path.take(p.len() as int) == p);
                assert(incomplete.contains(path.take(p.len() as int)));
            }
        }
        assert(hidden);
    }
}

proof fn lemma_filtered_types(s: Seq<EntryType>, types: Set<EntryType>)
    requires
        forall|i: int, j: int|
            0 <= i < j < s.len() ==> (#[trigger] s[i]).rank() < (#[trigger] s[j]).rank(),
    ensures
        ({
            let kept = s.filter(|t: EntryType| types.contains(t));
            &&& forall|i: int, j: int|
                0 <= i < j < kept.len() ==> (#[trigger] kept[i]).rank() < (#[trigger]
                kept[j]).rank()
            &&& forall|t: EntryType| #[trigger]
                kept.contains(t) <==> s.contains(t) && types.contains(t)
        }),
    decreases s.len(),
{
    reveal(Seq::filter);
    let pred = |t: EntryType| types.contains(t);
    let kept = s.filter(pred);
    if s.len() > 0 {
        let front = s.drop_last();
        let last = s.last();
        assert forall|i: int, j: int| 0 <= i < j < front.len() implies (#[trigger] front[i]).rank()
            < (#[trigger] front[j]).rank() by {
            assert(s[i].rank() < s[j].rank());
        }
        lemma_filtered_types(front, types);
        let before = front.filter(pred);
        assert(kept == if types.contains(last) {
            before.push(last)
        } else {
            before
        });
        assert forall|i: int| 0 <= i < before.len() implies (#[trigger] before[i]).rank()
            < last.rank() by {
            assert(before.contains(before[i]));
            let k = choose|k: int| 0 <= k < front.len() && front[k] == before[i];
            assert(s[k].rank() < s[s.len() - 1].rank());
        }
        assert forall|t: EntryType| #[trigger] kept.contains(t) implies s.contains(t)
            && types.contains(t) by {
            let i = choose|i: int| 0 <= i < kept.len() && kept[i] == t;
            if i < before.len() {
                assert(before[i] == t);
                assert(before.contains(t));
                let k = choose|k: int| 0 <= k < front.len() && front[k] == t;
                assert(s[k] == t);
            } else {
                assert(s[s.len() - 1] == t);
            }
        }
        assert forall|t: EntryType| s.contains(t) && types.contains(t) implies #[trigger]
            kept.contains(t) by {
            let k = choose|k: int| 0 <= k < s.len() && s[k] == t;
            if k < front.len() {
                assert(front[k] == t);
                assert(front.contains(t));
                assert(before.contains(t));
                let i = choose|i: int| 0 <= i < before.len() && before[i] == t;
                assert(kept[i] == t);
            } else {
                assert(kept[before.len() as int] == t);
            }
        }
    } else {
        assert forall|t: EntryType| #[trigger] kept.contains(t) <==> s.contains(t)
            && types.contains(t) by {
        }
    }
}

/// A row lists the types under which its path was seen, each once, in the order of types.
pub proof fn law_observed_types_are_listed_in_order(types: Set<EntryType>)
    ensures
        forall|t: EntryType| #[trigger] in_order(types).contains(t) <==> types.contains(t),
        forall|i: int, j: int, a: u64, b: u64|
            #![trigger goes_before(in_order(types)[i], a, in_order(types)[j], b)]
            0 <= i < j < in_order(types).len() ==> goes_before(
                in_order(types)[i],
                a,
                in_order(types)[j],
                b,
            ),
{
    let all = all_types();
    assert(all[0] is File && all[1] is Dir && all[2] is Symlink && all[3] is Fifo && all[4] is Char
        && all[5] is Block && all[6] is Socket && all[7] is Whiteout && all[8] is Unknown);
    assert forall|t: EntryType| #[trigger] all.contains(t) by {
        assert(all[t.rank() as int] == t);
    }
    lemma_filtered_types(all, types);
    let kept = in_order(types);
    assert forall|i: int, j: int, a: u64, b: u64|
        #![trigger goes_before(kept[i], a, kept[j], b)]
        0 <= i < j < kept.len() implies goes_before(kept[i], a, kept[j], b) by {
        assert(kept[i].rank() < kept[j].rank());
    }
}

/// A row shows what won for its path: where it was seen, as what, in which snapshot, since
/// when and how often.
pub proof fn law_row_shows_the_winner(
    known: Map<Seq<char>, PathRecord>,
    path: Seq<char>,
    latest: u64,
    incomplete: Set<Seq<char>>,
)
    ensures
        ({
            let row = row_of(known, path, latest, incomplete);
            &&& row.relative_path == path
            &&& row.source_path == known[path].source_path
            &&& row.entry_type == known[path].entry_type
            &&& row.fsoid == known[path].fsoid
            &&& row.snapshot_xid == known[path].snapshot_xid
            &&& row.first_snapshot_xid == known[path].first_snapshot_xid
            &&& row.snapshots_seen == known[path].snapshots_seen
            &&& forall|t: EntryType| #[trigger]
                row.observed_types.contains(t) <==> known[path].types.contains(t)
            &&& row.ancestor_conflict matches Some(above) ==> known.contains_key(above)
                && known[above].snapshot_xid > row.snapshot_xid
        }),
{
    law_observed_types_are_listed_in_order(known[path].types);
    law_nearest_blocking_ancestor(known, path, known[path].snapshot_xid);
}

/// Two paths have the same audit key where they differ in slashes at their ends and in the
/// case of characters alone; the key of a longer path continues that of a shorter one.
pub proof fn law_audit_key_ignores_case(a: Seq<char>, b: Seq<char>)
    requires
        clean(a).len() == clean(b).len(),
        forall|i: int|
            0 <= i < clean(a).len() ==> lowercase_of(#[trigger] clean(a)[i]) == lowercase_of(
                clean(b)[i],
            ),
    ensures
        collision_key(a) == collision_key(b),
{
    assert(clean(a).map_values(|c: char| lowercase_of(c)) =~= clean(b).map_values(
        |c: char| lowercase_of(c),
    ));
}

/// The audit key of a path that ends in a character other than a slash is that of what
/// comes before, followed by the lower case of the character.
pub proof fn law_audit_key_is_in_lower_case(path: Seq<char>, c: char)
    requires
        c != '/',
        path.len() > 0,
        path[0] != '/',
        path[path.len() - 1] != '/',
    ensures
        collision_key(path.push(c)) == collision_key(path) + lowercase_of(c),
        collision_key(seq![c]) == lowercase_of(c),
{
    let longer = path.push(c);
    assert(clean(path) == path && clean(longer) == longer && clean(seq![c]) == seq![c]);
    let f = |c: char| lowercase_of(c);
    assert(longer.map_values(f).drop_last() =~= path.map_values(f));
    assert(longer.map_values(f).last() == lowercase_of(c));
    reveal_with_fuel(run_together, 2);
    assert(seq![c].map_values(f).drop_last() =~= Seq::empty());
    assert(run_together(seq![c].map_values(f)) =~= lowercase_of(c));
}

} // verus!
