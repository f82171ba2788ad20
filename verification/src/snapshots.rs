//! Snapshots of a volume, and the choice of those that a command looks at.
use crate::error::{failure, Error, ErrorKind, ErrorView};
use crate::options::Options;
use crate::text::{
    hex_prefixed, law_first_occurrence_is_replaced, law_nothing_to_replace, law_prefix_is_cut,
    law_trailing_slashes_are_cut, occurs_at, opt_text, push_hex, replace_all, replaced, str_eq,
    strip_prefix_or_all, trim_end_slashes, without_prefix, without_trailing_slashes,
};
use crate::xid_map::XidMap;
use vstd::prelude::*;

verus! {

/// One snapshot of a volume.
#[derive(Debug)]
pub struct SnapshotInfo {
    pub xid: u64,
    pub name: String,
    pub sblock_oid: u64,
    pub extentref_tree_oid: u64,
    pub create_time: u64,
    pub change_time: u64,
}

/// The mathematical content of a [`SnapshotInfo`].
pub struct SnapshotView {
    pub xid: u64,
    pub name: Seq<char>,
    pub sblock_oid: u64,
    pub extentref_tree_oid: u64,
    pub create_time: u64,
    pub change_time: u64,
}

impl View for SnapshotInfo {
    type V = SnapshotView;

    open spec fn view(&self) -> SnapshotView {
        SnapshotView {
            xid: self.xid,
            name: self.name@,
            sblock_oid: self.sblock_oid,
            extentref_tree_oid: self.extentref_tree_oid,
            create_time: self.create_time,
            change_time: self.change_time,
        }
    }
}

impl Clone for SnapshotInfo {
    fn clone(&self) -> (r: SnapshotInfo)
        ensures
            r@ == self@,
    {
        SnapshotInfo {
            xid: self.xid,
            name: self.name.clone(),
            sblock_oid: self.sblock_oid,
            extentref_tree_oid: self.extentref_tree_oid,
            create_time: self.create_time,
            change_time: self.change_time,
        }
    }
}

/// The views of a list of snapshots.
pub open spec fn snapshot_views(snapshots: Seq<SnapshotInfo>) -> Seq<SnapshotView> {
    Seq::new(snapshots.len(), |i: int| snapshots[i]@)
}

// ---------------------------------------------------------------------------
// Order
// ---------------------------------------------------------------------------

/// `s` put into the ordered list `list`, behind its equals.
pub open spec fn inserted(list: Seq<SnapshotView>, s: SnapshotView) -> Seq<SnapshotView>
    decreases list.len(),
{
    if list.len() == 0 || list.last().xid <= s.xid {
        list.push(s)
    } else {
        inserted(list.drop_last(), s).push(list.last())
    }
}

/// The snapshots, oldest first; equal transactions keep the order in which they
/// came.
pub open spec fn oldest_first(list: Seq<SnapshotView>) -> Seq<SnapshotView>
    decreases list.len(),
{
    if list.len() == 0 {
        list
    } else {
        inserted(oldest_first(list.drop_last()), list.last())
    }
}

/// No snapshot stands behind a newer one.
pub open spec fn is_oldest_first(list: Seq<SnapshotView>) -> bool {
    forall|i: int, j: int| 0 <= i < j < list.len() ==> list[i].xid <= list[j].xid
}

proof fn lemma_inserted(list: Seq<SnapshotView>, s: SnapshotView)
    requires
        is_oldest_first(list),
    ensures
        is_oldest_first(inserted(list, s)),
        inserted(list, s).to_multiset() == list.to_multiset().insert(s),
        forall|i: int|
            0 <= i < inserted(list, s).len() ==> (#[trigger] inserted(list, s)[i] == s
                || list.contains(inserted(list, s)[i])),
    decreases list.len(),
{
    broadcast use vstd::seq_lib::group_to_multiset_ensures;

    if list.len() == 0 || list.last().xid <= s.xid {
        assert forall|i: int| 0 <= i < list.push(s).len() implies (#[trigger] list.push(s)[i] == s
            || list.contains(list.push(s)[i])) by {
            if i < list.len() {
                assert(list[i] == list.push(s)[i]);
            }
        }
    } else {
        let front = list.drop_last();
        let rest = inserted(front, s);
        lemma_inserted(front, s);
        assert(list =~= front.push(list.last()));
        assert forall|i: int| 0 <= i < rest.len() implies #[trigger] rest[i].xid
            <= list.last().xid by {
            if rest[i] != s {
                assert(front.contains(rest[i]));
                let k = choose|k: int| 0 <= k < front.len() && front[k] == rest[i];
                assert(list[k] == front[k]);
            }
        }
        assert forall|i: int|
            0 <= i < inserted(list, s).len() implies (#[trigger] inserted(list, s)[i] == s
            || list.contains(inserted(list, s)[i])) by {
            if i < rest.len() {
                assert(rest[i] == inserted(list, s)[i]);
                if rest[i] != s {
                    let k = choose|k: int| 0 <= k < front.len() && front[k] == rest[i];
                    assert(list[k] == front[k]);
                }
            } else {
                assert(list[list.len() - 1] == list.last());
            }
        }
        assert(list.to_multiset() =~= front.to_multiset().insert(list.last()));
        assert(inserted(list, s).to_multiset() =~= list.to_multiset().insert(s));
    }
}

/// Ordering the snapshots loses none and adds none, and leaves no newer one before
/// an older one.
pub proof fn law_oldest_first_is_a_sort(list: Seq<SnapshotView>)
    ensures
        is_oldest_first(oldest_first(list)),
        oldest_first(list).to_multiset() == list.to_multiset(),
    decreases list.len(),
{
    broadcast use vstd::seq_lib::group_to_multiset_ensures;

    if list.len() > 0 {
        let front = list.drop_last();
        law_oldest_first_is_a_sort(front);
        lemma_inserted(oldest_first(front), list.last());
        assert(list =~= front.push(list.last()));
        assert(oldest_first(list).to_multiset() =~= list.to_multiset());
    }
}

proof fn lemma_inserted_at(list: Seq<SnapshotView>, s: SnapshotView, p: int)
    requires
        0 <= p <= list.len(),
        p > 0 ==> list[p - 1].xid <= s.xid,
        forall|i: int| p <= i < list.len() ==> list[i].xid > s.xid,
    ensures
        inserted(list, s) == list.insert(p, s),
    decreases list.len(),
{
    if p == list.len() {
        assert(list.insert(p, s) =~= list.push(s));
    } else {
        let front = list.drop_last();
        lemma_inserted_at(front, s, p);
        assert(list.insert(p, s) =~= front.insert(p, s).push(list.last()));
    }
}

fn sort_oldest_first(snapshots: &Vec<SnapshotInfo>) -> (r: Vec<SnapshotInfo>)
    ensures
        snapshot_views(r@) == oldest_first(snapshot_views(snapshots@)),
{
    let mut out: Vec<SnapshotInfo> = Vec::new();
    let mut i: usize = 0;
    let ghost all = snapshot_views(snapshots@);
    proof {
        assert(all.take(0) =~= Seq::empty());
        assert(snapshot_views(out@) =~= Seq::empty());
    }
    while i < snapshots.len()
        invariant
            i <= snapshots@.len(),
            all == snapshot_views(snapshots@),
            snapshot_views(out@) == oldest_first(all.take(i as int)),
        decreases snapshots@.len() - i,
    {
        let s = snapshots[i].clone();
        let mut p: usize = out.len();
        while p > 0 && out[p - 1].xid > s.xid
            invariant
                p <= out@.len(),
                forall|k: int| p <= k < out@.len() ==> (#[trigger] out@[k]).xid > s.xid,
            decreases p,
        {
            p -= 1;
        }
        proof {
            let views = snapshot_views(out@);
            assert forall|k: int| p <= k < views.len() implies views[k].xid > s.xid by {
                assert(views[k].xid == out@[k].xid);
            }
            lemma_inserted_at(views, s@, p as int);
            let next = all.take(i + 1);
            assert(next.drop_last() =~= all.take(i as int));
            assert(next.last() == s@);
            assert(snapshot_views(out@.insert(p as int, s)) =~= views.insert(p as int, s@));
        }
        out.insert(p, s);
        i += 1;
    }
    proof {
        assert(all.take(i as int) =~= all);
    }
    out
}

// ---------------------------------------------------------------------------
// Choice
// ---------------------------------------------------------------------------

/// Some snapshot has transaction `xid`.
pub open spec fn has_xid(list: Seq<SnapshotView>, xid: u64) -> bool {
    exists|i: int| 0 <= i < list.len() && (#[trigger] list[i]).xid == xid
}

/// The first snapshot from `i` on that is called `name`.
pub open spec fn first_named(list: Seq<SnapshotView>, i: int, name: Seq<char>) -> Option<u64>
    decreases list.len() - i,
{
    if !(0 <= i < list.len()) {
        None
    } else if list[i].name == name {
        Some(list[i].xid)
    } else {
        first_named(list, i + 1, name)
    }
}

/// The newest snapshot that a command looks at, if one was asked for.
pub open spec fn boundary_of(
    list: Seq<SnapshotView>,
    name: Option<Seq<char>>,
    xid: Option<u64>,
) -> Result<Option<u64>, ErrorView> {
    match xid {
        Some(xid) => if has_xid(list, xid) {
            Ok(Some(xid))
        } else {
            Err(
                failure(
                    ErrorKind::ObjectNotFound,
                    "no snapshot with xid "@ + hex_prefixed(xid as nat),
                ),
            )
        },
        None => match name {
            Some(name) => match first_named(list, 0, name) {
                Some(xid) => Ok(Some(xid)),
                None => Err(
                    failure(ErrorKind::ObjectNotFound, "no snapshot named `"@ + name + "`"@),
                ),
            },
            None => Ok(None),
        },
    }
}

/// The snapshots of `list` up to `boundary`.
pub open spec fn up_to(list: Seq<SnapshotView>, boundary: Option<u64>) -> Seq<SnapshotView> {
    match boundary {
        Some(xid) => list.filter(|s: SnapshotView| s.xid <= xid),
        None => list,
    }
}

/// The snapshots that a command looks at, oldest first, up to the one that was
/// asked for by name or by transaction.
pub open spec fn selection(
    list: Seq<SnapshotView>,
    name: Option<Seq<char>>,
    xid: Option<u64>,
) -> Result<Seq<SnapshotView>, ErrorView> {
    if name is Some && xid is Some {
        Err(
            failure(
                ErrorKind::Usage,
                "use only one of `--snapshot` and `--snapshot-xid` as the latest boundary"@,
            ),
        )
    } else {
        match boundary_of(oldest_first(list), name, xid) {
            Err(error) => Err(error),
            Ok(boundary) => Ok(up_to(oldest_first(list), boundary)),
        }
    }
}

fn find_boundary(list: &Vec<SnapshotInfo>, opts: &Options) -> (r: Result<Option<u64>, Error>)
    ensures
        match r {
            Ok(found) => boundary_of(
                snapshot_views(list@),
                opt_text(opts.snapshot),
                opts.snapshot_xid,
            ) == Ok::<Option<u64>, ErrorView>(found),
            Err(error) => boundary_of(
                snapshot_views(list@),
                opt_text(opts.snapshot),
                opts.snapshot_xid,
            ) == Err::<Option<u64>, ErrorView>(error@),
        },
{
    let ghost views = snapshot_views(list@);
    match opts.snapshot_xid {
        Some(xid) => {
            let mut i: usize = 0;
            while i < list.len()
                invariant
                    views == snapshot_views(list@),
                    opts.snapshot_xid == Some(xid),
                    i <= list@.len(),
                    forall|k: int| 0 <= k < i ==> (#[trigger] views[k]).xid != xid,
                decreases list@.len() - i,
            {
                if list[i].xid == xid {
                    proof {
                        assert(views[i as int].xid == xid);
                    }
                    return Ok(Some(xid));
                }
                i += 1;
            }
            let mut message = "no snapshot with xid ".to_owned();
            push_hex(&mut message, xid);
            Err(Error::new(ErrorKind::ObjectNotFound, message))
        },
        None => match &opts.snapshot {
            None => Ok(None),
            Some(name) => {
                let mut i: usize = 0;
                while i < list.len()
                    invariant
                        views == snapshot_views(list@),
                        opts.snapshot_xid is None,
                        opts.snapshot == Some(*name),
                        i <= list@.len(),
                        first_named(views, 0, name@) == first_named(views, i as int, name@),
                    decreases list@.len() - i,
                {
                    if str_eq(list[i].name.as_str(), name.as_str()) {
                        return Ok(Some(list[i].xid));
                    }
                    i += 1;
                }
                let mut message = "no snapshot named `".to_owned();
                message.append(name.as_str());
                message.append("`");
                Err(Error::new(ErrorKind::ObjectNotFound, message))
            },
        },
    }
}

fn keep_up_to(list: Vec<SnapshotInfo>, xid: u64) -> (r: Vec<SnapshotInfo>)
    ensures
        snapshot_views(r@) == up_to(snapshot_views(list@), Some(xid)),
{
    let ghost views = snapshot_views(list@);
    let ghost wanted = |s: SnapshotView| s.xid <= xid;
    let mut out: Vec<SnapshotInfo> = Vec::new();
    let mut i: usize = 0;
    proof {
        reveal(Seq::filter);
        assert(views.take(0) =~= Seq::empty());
        assert(snapshot_views(out@) =~= Seq::empty());
    }
    while i < list.len()
        invariant
            views == snapshot_views(list@),
            wanted == (|s: SnapshotView| s.xid <= xid),
            i <= list@.len(),
            snapshot_views(out@) == views.take(i as int).filter(wanted),
        decreases list@.len() - i,
    {
        let ghost before = snapshot_views(out@);
        proof {
            reveal(Seq::filter);
            assert(views.take(i + 1).drop_last() =~= views.take(i as int));
            assert(views.take(i + 1).last() == list@[i as int]@);
        }
        if list[i].xid <= xid {
            out.push(list[i].clone());
            proof {
                assert(snapshot_views(out@) =~= before.push(list@[i as int]@));
            }
        }
        i += 1;
    }
    proof {
        assert(views.take(i as int) =~= views);
    }
    out
}

/// Chooses the snapshots that a command looks at: all up to the one that the
/// options name, oldest first.
pub fn select_snapshots(snapshots: Vec<SnapshotInfo>, opts: &Options) -> (r: Result<
    Vec<SnapshotInfo>,
    Error,
>)
    ensures
        match r {
            Ok(chosen) => selection(
                snapshot_views(snapshots@),
                opt_text(opts.snapshot),
                opts.snapshot_xid,
            ) == Ok::<Seq<SnapshotView>, ErrorView>(snapshot_views(chosen@)),
            Err(error) => selection(
                snapshot_views(snapshots@),
                opt_text(opts.snapshot),
                opts.snapshot_xid,
            ) == Err::<Seq<SnapshotView>, ErrorView>(error@),
        },
{
    if opts.snapshot.is_some() && opts.snapshot_xid.is_some() {
        return Err(
            Error::fixed(
                ErrorKind::Usage,
                "use only one of `--snapshot` and `--snapshot-xid` as the latest boundary",
            ),
        );
    }
    let ordered = sort_oldest_first(&snapshots);
    match find_boundary(&ordered, opts) {
        Err(error) => Err(error),
        Ok(None) => Ok(ordered),
        Ok(Some(xid)) => Ok(keep_up_to(ordered, xid)),
    }
}

proof fn lemma_filter_ordered(list: Seq<SnapshotView>, xid: u64)
    requires
        is_oldest_first(list),
    ensures
        is_oldest_first(up_to(list, Some(xid))),
        forall|i: int|
            0 <= i < up_to(list, Some(xid)).len() ==> (#[trigger] up_to(list, Some(xid))[i]).xid
                <= xid && list.contains(up_to(list, Some(xid))[i]),
        forall|i: int|
            0 <= i < list.len() && (#[trigger] list[i]).xid <= xid ==> up_to(
                list,
                Some(xid),
            ).contains(list[i]),
    decreases list.len(),
{
    reveal(Seq::filter);
    if list.len() > 0 {
        let front = list.drop_last();
        lemma_filter_ordered(front, xid);
        let kept = up_to(front, Some(xid));
        let all = up_to(list, Some(xid));
        assert forall|i: int| 0 <= i < all.len() implies (#[trigger] all[i]).xid <= xid
            && list.contains(all[i]) by {
            if i < kept.len() {
                assert(all[i] == kept[i]);
                let k = choose|k: int| 0 <= k < front.len() && front[k] == kept[i];
                assert(list[k] == front[k]);
            } else {
                assert(list[list.len() - 1] == all[i]);
            }
        }
        assert forall|i: int, j: int| 0 <= i < j < all.len() implies all[i].xid <= all[j].xid by {
            if j < kept.len() {
                assert(kept[i].xid <= kept[j].xid);
            } else {
                assert(all[i] == kept[i]);
                let k = choose|k: int| 0 <= k < front.len() && front[k] == kept[i];
                assert(list[k].xid <= list[list.len() - 1].xid);
            }
        }
        assert forall|i: int| 0 <= i < list.len() && (#[trigger] list[i]).xid <= xid implies
            all.contains(list[i]) by {
            if i < front.len() {
                assert(front[i] == list[i]);
                let k = choose|k: int| 0 <= k < kept.len() && kept[k] == front[i];
                assert(all[k] == kept[k]);
            } else {
                assert(all[all.len() - 1] == list[i]);
            }
        }
    }
}

/// A selection is ordered oldest first, and where a snapshot was asked for, the
/// selection ends with that transaction: nothing newer is looked at, and
/// everything older is.
pub proof fn law_selection_ends_at_the_boundary(
    list: Seq<SnapshotView>,
    name: Option<Seq<char>>,
    xid: Option<u64>,
)
    requires
        selection(list, name, xid) is Ok,
    ensures
        ({
            let chosen = selection(list, name, xid)->Ok_0;
            &&& is_oldest_first(chosen)
            &&& boundary_of(oldest_first(list), name, xid) matches Ok(Some(boundary)) ==> {
                &&& chosen.len() > 0
                &&& chosen.last().xid == boundary
                &&& forall|s: SnapshotView|
                    #![trigger chosen.contains(s)]
                    #![trigger list.contains(s)]
                    chosen.contains(s) <==> list.contains(s) && s.xid <= boundary
            }
        }),
{
    broadcast use vstd::seq_lib::group_to_multiset_ensures;

    let sorted = oldest_first(list);
    law_oldest_first_is_a_sort(list);
    match boundary_of(sorted, name, xid) {
        Ok(Some(boundary)) => {
            lemma_filter_ordered(sorted, boundary);
            let chosen = up_to(sorted, Some(boundary));
            let at = if xid is Some {
                choose|i: int| 0 <= i < sorted.len() && (#[trigger] sorted[i]).xid == boundary
            } else {
                lemma_first_named(sorted, 0, name->Some_0);
                choose|i: int| 0 <= i < sorted.len() && (#[trigger] sorted[i]).xid == boundary
            };
            assert(chosen.contains(sorted[at]));
            let k = choose|k: int| 0 <= k < chosen.len() && chosen[k] == sorted[at];
            if k < chosen.len() - 1 {
                assert(chosen[k].xid <= chosen[chosen.len() - 1].xid);
            }
            assert(chosen[chosen.len() - 1].xid <= boundary);
            assert forall|s: SnapshotView|
                #![trigger chosen.contains(s)]
                #![trigger list.contains(s)]
                chosen.contains(s) <==> list.contains(s) && s.xid <= boundary by {
                assert(sorted.contains(s) <==> sorted.to_multiset().count(s) > 0);
                assert(list.contains(s) <==> list.to_multiset().count(s) > 0);
                if chosen.contains(s) {
                    let i = choose|i: int| 0 <= i < chosen.len() && chosen[i] == s;
                    assert(sorted.contains(chosen[i]));
                }
                if sorted.contains(s) && s.xid <= boundary {
                    let i = choose|i: int| 0 <= i < sorted.len() && sorted[i] == s;
                    assert(chosen.contains(sorted[i]));
                }
            }
        },
        _ => {},
    }
}

proof fn lemma_first_named(list: Seq<SnapshotView>, i: int, name: Seq<char>)
    requires
        0 <= i,
    ensures
        first_named(list, i, name) matches Some(xid) ==> has_xid(list, xid),
    decreases list.len() - i,
{
    if i < list.len() {
        if list[i].name == name {
            assert(list[i].xid == first_named(list, i, name)->Some_0);
        } else {
            lemma_first_named(list, i + 1, name);
        }
    }
}

// ---------------------------------------------------------------------------
// Roots
// ---------------------------------------------------------------------------

/// The name of a snapshot's directory: its name without the Time Machine prefix.
pub open spec fn directory_name(name: Seq<char>) -> Seq<char> {
    without_prefix(name, "com.apple.TimeMachine."@)
}

/// A path without slashes at its end; the path `/` stays.
pub open spec fn trimmed(path: Seq<char>) -> Seq<char> {
    if path == "/"@ {
        path
    } else {
        without_trailing_slashes(path)
    }
}

/// The root that `template` means in the snapshot `name`.
pub open spec fn root_in(template: Seq<char>, name: Seq<char>) -> Seq<char> {
    trimmed(
        replaced(
            replaced(template, "{snapshot-dir}"@, directory_name(name)),
            "{snapshot}"@,
            name,
        ),
    )
}

/// Cuts slashes off the end of a path; the path `/` stays.
pub fn trim_root(path: &str) -> (r: String)
    ensures
        r@ == trimmed(path@),
{
    if str_eq(path, "/") {
        path.to_owned()
    } else {
        trim_end_slashes(path)
    }
}

/// The root that `template` means in one snapshot.
pub fn snapshot_root(template: &str, snapshot_name: &str) -> (r: String)
    ensures
        r@ == root_in(template@, snapshot_name@),
{
    let directory = strip_prefix_or_all(snapshot_name, "com.apple.TimeMachine.");
    proof {
        reveal_strlit("{snapshot-dir}");
        reveal_strlit("{snapshot}");
    }
    let with_directory = replace_all(template, "{snapshot-dir}", directory.as_str());
    let expanded = replace_all(with_directory.as_str(), "{snapshot}", snapshot_name);
    trim_root(expanded.as_str())
}

// ---------------------------------------------------------------------------
// Tables
// ---------------------------------------------------------------------------

/// The snapshots by transaction; of two with one transaction the later one counts.
pub open spec fn by_xid(list: Seq<SnapshotView>) -> Map<u64, SnapshotView>
    decreases list.len(),
{
    if list.len() == 0 {
        Map::empty()
    } else {
        by_xid(list.drop_last()).insert(list.last().xid, list.last())
    }
}

/// A table of snapshots as a map of their views.
pub open spec fn table_view(table: Map<u64, SnapshotInfo>) -> Map<u64, SnapshotView> {
    table.map_values(|s: SnapshotInfo| s@)
}

/// Puts the snapshots into a table by transaction.
pub fn index_by_xid(snapshots: &Vec<SnapshotInfo>) -> (r: XidMap<SnapshotInfo>)
    ensures
        table_view(r@) == by_xid(snapshot_views(snapshots@)),
        forall|xid: u64| #[trigger] r@.contains_key(xid) ==> r@[xid].xid == xid,
{
    let mut table: XidMap<SnapshotInfo> = XidMap::new();
    let ghost all = snapshot_views(snapshots@);
    let mut i: usize = 0;
    proof {
        assert(all.take(0) =~= Seq::empty());
        assert(table_view(table@) =~= Map::empty());
    }
    while i < snapshots.len()
        invariant
            i <= snapshots@.len(),
            all == snapshot_views(snapshots@),
            table_view(table@) == by_xid(all.take(i as int)),
            forall|xid: u64| #[trigger] table@.contains_key(xid) ==> table@[xid].xid == xid,
        decreases snapshots@.len() - i,
    {
        let ghost before = table@;
        let s = snapshots[i].clone();
        let ghost kept = s;
        let xid: u64 = s.xid;
        table.insert(xid, s);
        proof {
            assert(all.take(i + 1).drop_last() =~= all.take(i as int));
            assert(all.take(i + 1).last() == kept@);
            assert(table_view(table@) =~= table_view(before).insert(xid, kept@));
        }
        i += 1;
    }
    proof {
        assert(all.take(i as int) =~= all);
    }
    table
}

// ---------------------------------------------------------------------------
// Laws on choice and roots
// ---------------------------------------------------------------------------

/// Putting one more snapshot into the order leaves the others as they were among
/// themselves, and puts it behind those of the same transaction.
proof fn lemma_inserted_filter(list: Seq<SnapshotView>, s: SnapshotView, xid: u64)
    ensures
        inserted(list, s).filter(|t: SnapshotView| t.xid == xid) == if s.xid == xid {
            list.filter(|t: SnapshotView| t.xid == xid).push(s)
        } else {
            list.filter(|t: SnapshotView| t.xid == xid)
        },
    decreases list.len(),
{
    reveal(Seq::filter);
    let of = |t: SnapshotView| t.xid == xid;
    if list.len() == 0 || list.last().xid <= s.xid {
        assert(list.push(s).drop_last() =~= list);
    } else {
        let front = list.drop_last();
        let rest = inserted(front, s);
        lemma_inserted_filter(front, s, xid);
        assert(rest.push(list.last()).drop_last() =~= rest);
    }
}

/// Snapshots of one transaction stay in the order in which they came.
pub proof fn law_oldest_first_is_stable(list: Seq<SnapshotView>, xid: u64)
    ensures
        oldest_first(list).filter(|t: SnapshotView| t.xid == xid) == list.filter(
            |t: SnapshotView| t.xid == xid,
        ),
    decreases list.len(),
{
    reveal(Seq::filter);
    if list.len() > 0 {
        law_oldest_first_is_stable(list.drop_last(), xid);
        lemma_inserted_filter(oldest_first(list.drop_last()), list.last(), xid);
    }
}

proof fn lemma_named(list: Seq<SnapshotView>, i: int, name: Seq<char>)
    requires
        0 <= i <= list.len(),
    ensures
        match first_named(list, i, name) {
            Some(xid) => exists|k: int|
                {
                    &&& i <= k < list.len()
                    &&& (#[trigger] list[k]).name == name
                    &&& list[k].xid == xid
                    &&& forall|j: int| i <= j < k ==> (#[trigger] list[j]).name != name
                },
            None => forall|j: int| i <= j < list.len() ==> (#[trigger] list[j]).name != name,
        },
    decreases list.len() - i,
{
    if i < list.len() && list[i].name != name {
        lemma_named(list, i + 1, name);
    } else if i < list.len() {
        assert(list[i].name == name);
    }
}

proof fn lemma_sorted_has(list: Seq<SnapshotView>, s: SnapshotView)
    ensures
        oldest_first(list).contains(s) <==> list.contains(s),
{
    broadcast use vstd::seq_lib::group_to_multiset_ensures;

    law_oldest_first_is_a_sort(list);
    assert(oldest_first(list).contains(s) <==> oldest_first(list).to_multiset().count(s) > 0);
    assert(list.contains(s) <==> list.to_multiset().count(s) > 0);
}

/// A selection fails for three reasons alone: a name and a transaction are both given, no
/// snapshot has that transaction, or none has that name.
pub proof fn law_selection_fails_where_nothing_is_named(
    list: Seq<SnapshotView>,
    name: Option<Seq<char>>,
    xid: Option<u64>,
)
    ensures
        name is Some && xid is Some ==> (selection(list, name, xid) matches Err(error)
            && error.kind == ErrorKind::Usage),
        name is None && xid is None ==> selection(list, name, xid) == Ok::<
            Seq<SnapshotView>,
            ErrorView,
        >(oldest_first(list)),
        name is None && xid is Some ==> (selection(list, name, xid) is Ok <==> exists|
            s: SnapshotView,
        | #[trigger] list.contains(s) && s.xid == xid->Some_0),
        name is Some && xid is None ==> (selection(list, name, xid) is Ok <==> exists|
            s: SnapshotView,
        | #[trigger] list.contains(s) && s.name == name->Some_0),
        !(name is Some && xid is Some) ==> (selection(list, name, xid) matches Err(error)
            ==> error.kind == ErrorKind::ObjectNotFound),
{
    let sorted = oldest_first(list);
    assert forall|s: SnapshotView| #[trigger] list.contains(s) <==> sorted.contains(s) by {
        lemma_sorted_has(list, s);
    }
    if name is None && xid is Some {
        if selection(list, name, xid) is Ok {
            let i = choose|i: int| 0 <= i < sorted.len() && (#[trigger] sorted[i]).xid
                == xid->Some_0;
            assert(sorted.contains(sorted[i]));
            assert(list.contains(sorted[i]));
        }
        if exists|s: SnapshotView| #[trigger] list.contains(s) && s.xid == xid->Some_0 {
            let s = choose|s: SnapshotView| #[trigger] list.contains(s) && s.xid == xid->Some_0;
            let i = choose|i: int| 0 <= i < sorted.len() && sorted[i] == s;
            assert(sorted[i].xid == xid->Some_0);
        }
    }
    if name is Some && xid is None {
        lemma_named(sorted, 0, name->Some_0);
        if selection(list, name, xid) is Ok {
            let i = choose|i: int|
                0 <= i < sorted.len() && (#[trigger] sorted[i]).name == name->Some_0;
            assert(sorted.contains(sorted[i]));
            assert(list.contains(sorted[i]));
        }
        if exists|s: SnapshotView| #[trigger] list.contains(s) && s.name == name->Some_0 {
            let s = choose|s: SnapshotView| #[trigger]
                list.contains(s) && s.name == name->Some_0;
            let i = choose|i: int| 0 <= i < sorted.len() && sorted[i] == s;
            assert(sorted[i].name == name->Some_0);
        }
    }
}

/// What is looked at ends where it is asked to end: with the given transaction, or with the
/// oldest of the snapshots that have the given name.
pub proof fn law_boundary_is_what_was_asked_for(
    list: Seq<SnapshotView>,
    name: Option<Seq<char>>,
    xid: Option<u64>,
)
    requires
        name is None <==> xid is Some,
        selection(list, name, xid) is Ok,
    ensures
        ({
            let chosen = selection(list, name, xid)->Ok_0;
            let last = chosen[chosen.len() - 1].xid;
            &&& chosen.len() > 0
            &&& xid is Some ==> last == xid->Some_0
            &&& name is Some ==> {
                &&& exists|s: SnapshotView| #[trigger]
                    list.contains(s) && s.name == name->Some_0 && s.xid == last
                &&& forall|s: SnapshotView| #[trigger]
                    list.contains(s) && s.name == name->Some_0 ==> last <= s.xid
            }
            &&& forall|s: SnapshotView|
                #![trigger chosen.contains(s)]
                #![trigger list.contains(s)]
                chosen.contains(s) <==> list.contains(s) && s.xid <= last
        }),
{
    law_selection_ends_at_the_boundary(list, name, xid);
    let sorted = oldest_first(list);
    law_oldest_first_is_a_sort(list);
    if name is Some {
        let wanted = name->Some_0;
        lemma_named(sorted, 0, wanted);
        let last = boundary_of(sorted, name, xid)->Ok_0->Some_0;
        let k = choose|k: int|
            {
                &&& 0 <= k < sorted.len()
                &&& (#[trigger] sorted[k]).name == wanted
                &&& sorted[k].xid == last
                &&& forall|j: int| 0 <= j < k ==> (#[trigger] sorted[j]).name != wanted
            };
        lemma_sorted_has(list, sorted[k]);
        assert(sorted.contains(sorted[k]));
        assert(list.contains(sorted[k]));
        assert forall|s: SnapshotView| #[trigger]
            list.contains(s) && s.name == wanted implies last <= s.xid by {
            lemma_sorted_has(list, s);
            let j = choose|j: int| 0 <= j < sorted.len() && sorted[j] == s;
            assert(j >= k);
            if j > k {
                assert(sorted[k].xid <= sorted[j].xid);
            }
        }
    }
}

/// The prefix of Time Machine is no part of the name of a snapshot's directory.
pub proof fn law_directory_name_has_no_prefix(rest: Seq<char>, name: Seq<char>)
    ensures
        directory_name("com.apple.TimeMachine."@ + rest) == rest,
        !occurs_at(name, "com.apple.TimeMachine."@, 0) ==> directory_name(name) == name,
{
    law_prefix_is_cut("com.apple.TimeMachine."@, rest, name);
}

/// A root keeps no slash at its end, unless it is the slash alone.
pub proof fn law_roots_end_without_a_slash(path: Seq<char>)
    ensures
        trimmed(seq!['/']) == seq!['/'],
        path != seq!['/'] ==> {
            let kept = trimmed(path);
            &&& kept.len() <= path.len()
            &&& kept == path.take(kept.len() as int)
            &&& kept.len() > 0 ==> kept[kept.len() - 1] != '/'
            &&& forall|i: int| kept.len() <= i < path.len() ==> #[trigger] path[i] == '/'
        },
{
    reveal_strlit("/");
    assert("/"@ =~= seq!['/']);
    law_trailing_slashes_are_cut(path);
}

/// A text of which only what stands at `at` could be the pattern, and is.
pub(crate) proof fn lemma_replaced_once(
    a: Seq<char>,
    pattern: Seq<char>,
    b: Seq<char>,
    to: Seq<char>,
)
    requires
        pattern.len() > 0,
        pattern[0] == '{',
        !a.contains('{'),
        !b.contains('{'),
    ensures
        replaced(a + pattern + b, pattern, to) == a + to + b,
{
    let s = a + pattern + b;
    let n = a.len() as int;
    assert(occurs_at(s, pattern, n)) by {
        assert forall|k: int| 0 <= k < pattern.len() implies s[n + k] == #[trigger] pattern[k] by {
        }
    }
    assert forall|i: int| 0 <= i < n implies !#[trigger] occurs_at(s, pattern, i) by {
        assert(a.contains(a[i]));
        assert(s[i] == a[i]);
        if occurs_at(s, pattern, i) {
            assert(s[i + 0] == pattern[0]);
        }
    }
    law_first_occurrence_is_replaced(s, pattern, to, n);
    assert(s.take(n) =~= a);
    assert(s.skip(n + pattern.len() as int) =~= b);
    lemma_no_brace(b, pattern);
    law_nothing_to_replace(b, pattern, to);
}

pub(crate) proof fn lemma_no_brace(s: Seq<char>, pattern: Seq<char>)
    requires
        pattern.len() > 0,
        pattern[0] == '{',
        !s.contains('{'),
    ensures
        forall|at: int| !#[trigger] occurs_at(s, pattern, at),
{
    assert forall|at: int| !#[trigger] occurs_at(s, pattern, at) by {
        if occurs_at(s, pattern, at) {
            assert(s[at + 0] == pattern[0]);
            assert(s.contains(s[at]));
        }
    }
}

/// Two patterns that differ at `d` do not stand in the same place: where only one opening
/// brace occurs, the other pattern is not there.
pub(crate) proof fn lemma_other_pattern(
    a: Seq<char>,
    pattern: Seq<char>,
    b: Seq<char>,
    other: Seq<char>,
    d: int,
)
    requires
        0 < d < pattern.len(),
        d < other.len(),
        other[0] == '{',
        pattern[d] != other[d],
        forall|k: int| 0 < k < pattern.len() ==> pattern[k] != '{',
        !a.contains('{'),
        !b.contains('{'),
    ensures
        forall|at: int| !#[trigger] occurs_at(a + pattern + b, other, at),
{
    let s = a + pattern + b;
    let n = a.len() as int;
    assert forall|at: int| !#[trigger] occurs_at(s, other, at) by {
        if occurs_at(s, other, at) {
            assert(s[at + 0] == other[0]);
            if at < n {
                assert(a.contains(a[at]));
            } else if at == n {
                assert(s[at + d] == other[d]);
                assert(s[n + d] == pattern[d]);
            } else if at < n + pattern.len() {
                assert(s[at] == pattern[at - n]);
            } else {
                assert(b.contains(b[at - n - pattern.len()]));
                assert(s[at] == b[at - n - pattern.len()]);
            }
        }
    }
}

/// A template without braces names the same root in every snapshot. One that names the
/// snapshot, or its directory, has it in that place.
pub proof fn law_template_names_the_snapshot(a: Seq<char>, b: Seq<char>, name: Seq<char>)
    requires
        !a.contains('{'),
        !b.contains('{'),
        !directory_name(name).contains('{'),
    ensures
        root_in(a, name) == trimmed(a),
        root_in(a + "{snapshot}"@ + b, name) == trimmed(a + name + b),
        root_in(a + "{snapshot-dir}"@ + b, name) == trimmed(a + directory_name(name) + b),
{
    reveal_strlit("{snapshot}");
    reveal_strlit("{snapshot-dir}");
    let whole = "{snapshot}"@;
    let dir = "{snapshot-dir}"@;
    assert(whole.len() == 10 && dir.len() == 14);
    assert(whole[0] == '{' && dir[0] == '{' && whole[9] == '}' && dir[9] == '-');
    assert(forall|k: int| 0 < k < 10 ==> whole[k] != '{');
    lemma_no_brace(a, whole);
    lemma_no_brace(a, dir);
    law_nothing_to_replace(a, dir, directory_name(name));
    law_nothing_to_replace(a, whole, name);
    lemma_other_pattern(a, whole, b, dir, 9);
    law_nothing_to_replace(a + whole + b, dir, directory_name(name));
    lemma_replaced_once(a, whole, b, name);
    lemma_replaced_once(a, dir, b, directory_name(name));
    let made = a + directory_name(name) + b;
    assert(!made.contains('{')) by {
        if made.contains('{') {
            let i = choose|i: int| 0 <= i < made.len() && made[i] == '{';
            let d = directory_name(name);
            if i < a.len() {
                assert(a.contains(a[i]));
            } else if i < a.len() + d.len() {
                assert(d.contains(d[i - a.len()]));
            } else {
                assert(b.contains(b[i - a.len() - d.len()]));
            }
        }
    }
    lemma_no_brace(made, whole);
    law_nothing_to_replace(made, whole, name);
}

/// A table holds the snapshots by their transactions: one more is found under its own, and
/// those of other transactions stay.
pub proof fn law_table_is_keyed_by_transaction(list: Seq<SnapshotView>, s: SnapshotView, xid: u64)
    ensures
        by_xid(Seq::empty()) == Map::<u64, SnapshotView>::empty(),
        by_xid(list.push(s)).contains_key(s.xid),
        by_xid(list.push(s))[s.xid] == s,
        xid != s.xid ==> by_xid(list.push(s)).contains_key(xid) == by_xid(list).contains_key(xid)
            && (by_xid(list).contains_key(xid) ==> by_xid(list.push(s))[xid] == by_xid(list)[xid]),
{
    assert(list.push(s).drop_last() =~= list);
}

} // verus!
