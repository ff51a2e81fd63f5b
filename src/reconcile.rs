//! What one folder listing asks of the local tree and of the version cache.
use vstd::prelude::*;
use crate::chars::chars_of;
use crate::versions::{
    clone_opt_string, opt_string_eq, opt_view, Version, VersionMap, VersionView,
};

verus! {

/// Metadata of one remote object, as a listing reports it.
pub struct RemoteObject {
    pub id: String,
    pub name: String,
    pub is_folder: bool,
    pub version: String,
    /// Content hash; present only for files.
    pub content_hash: Option<String>,
    pub trashed: bool,
}

pub struct RemoteView {
    pub id: Seq<char>,
    pub name: Seq<char>,
    pub is_folder: bool,
    pub version: Seq<char>,
    pub content_hash: Option<Seq<char>>,
    pub trashed: bool,
}

impl View for RemoteObject {
    type V = RemoteView;

    open spec fn view(&self) -> RemoteView {
        RemoteView {
            id: self.id@,
            name: self.name@,
            is_folder: self.is_folder,
            version: self.version@,
            content_hash: opt_view(self.content_hash),
            trashed: self.trashed,
        }
    }
}

/// One change to apply to the local tree, in the order given.
pub enum FsOp {
    /// Remove what stands at `path` (a whole tree for a folder); nothing where it is absent.
    Remove { path: String, is_folder: bool },
    /// Rename `from` to `to` in one operation.
    Rename { from: String, to: String },
    /// Create the directory `path` where it is absent.
    EnsureDir { path: String },
    /// Download the object `id` and write it to `dest`, replacing what is there.
    Download { id: String, dest: String },
    /// Reconcile the remote folder `id` into the directory `path` now, before
    /// the operations that follow.
    Descend { id: String, path: String },
}

pub enum OpView {
    Remove { path: Seq<char>, is_folder: bool },
    Rename { from: Seq<char>, to: Seq<char> },
    EnsureDir { path: Seq<char> },
    Download { id: Seq<char>, dest: Seq<char> },
    Descend { id: Seq<char>, path: Seq<char> },
}

impl View for FsOp {
    type V = OpView;

    open spec fn view(&self) -> OpView {
        match self {
            FsOp::Remove { path, is_folder } => OpView::Remove { path: path@, is_folder: *is_folder },
            FsOp::Rename { from, to } => OpView::Rename { from: from@, to: to@ },
            FsOp::EnsureDir { path } => OpView::EnsureDir { path: path@ },
            FsOp::Download { id, dest } => OpView::Download { id: id@, dest: dest@ },
            FsOp::Descend { id, path } => OpView::Descend { id: id@, path: path@ },
        }
    }
}

pub open spec fn ops_view(ops: Seq<FsOp>) -> Seq<OpView> {
    ops.map_values(|o: FsOp| o@)
}

pub open spec fn remote_views(cs: Seq<RemoteObject>) -> Seq<RemoteView> {
    cs.map_values(|c: RemoteObject| c@)
}

/// The path of the entry `name` in the directory `dir`.
pub open spec fn join(dir: Seq<char>, name: Seq<char>) -> Seq<char> {
    if dir.len() > 0 && dir.last() == '/' {
        dir + name
    } else {
        dir.push('/') + name
    }
}

/// `p` names the directory `dir` or something beneath it.
pub open spec fn is_within(p: Seq<char>, dir: Seq<char>) -> bool {
    &&& dir.len() <= p.len()
    &&& p.subrange(0, dir.len() as int) == dir
    &&& (p.len() == dir.len() || p[dir.len() as int] == '/' || (dir.len() > 0 && dir.last()
        == '/'))
}

/// The name cannot be one entry of a directory.
pub open spec fn has_separator(name: Seq<char>) -> bool {
    exists|i: int| 0 <= i < name.len() && name[i] == '/'
}

/// The record of `c` once it has been reconciled into `dir`.
pub open spec fn fresh_record(parent: Seq<char>, dir: Seq<char>, c: RemoteView) -> VersionView {
    VersionView {
        path: join(dir, c.name),
        version: c.version,
        content_hash: c.content_hash,
        parent_id: parent,
        is_folder: c.is_folder,
    }
}

/// The cache after the path check: a recorded object that now lies outside
/// `dir` has its recorded path moved to where the listing puts it.
pub open spec fn relocated(dir: Seq<char>, c: RemoteView, m: Map<Seq<char>, VersionView>) -> Map<
    Seq<char>,
    VersionView,
> {
    if m.contains_key(c.id) && !is_within(m[c.id].path, dir) {
        m.insert(c.id, VersionView { path: join(dir, c.name), ..m[c.id] })
    } else {
        m
    }
}

/// What one child of the folder `parent` (listed into `dir`) asks for: the
/// operations, the cache after it, and whether the walk of this folder stops
/// there.
pub open spec fn child_step(
    parent: Seq<char>,
    dir: Seq<char>,
    c: RemoteView,
    m: Map<Seq<char>, VersionView>,
) -> (Seq<OpView>, Map<Seq<char>, VersionView>, bool) {
    let target = join(dir, c.name);
    let known = m.contains_key(c.id);
    let m1 = relocated(dir, c, m);
    if known && m[c.id].version == c.version {
        (Seq::empty(), m1, false)
    } else if c.trashed {
        let ops = if known {
            seq![OpView::Remove { path: m[c.id].path, is_folder: m[c.id].is_folder }]
        } else {
            Seq::empty()
        };
        (ops, m1.remove(c.id), false)
    } else if has_separator(c.name) {
        (Seq::empty(), m1, true)
    } else {
        let rename = if known && m[c.id].path != target {
            seq![OpView::Rename { from: m[c.id].path, to: target }]
        } else {
            Seq::empty()
        };
        let ops = if c.is_folder {
            rename + seq![OpView::EnsureDir { path: target }, OpView::Descend { id: c.id, path: target }]
        } else if !known || m[c.id].content_hash != c.content_hash {
            rename + seq![OpView::Download { id: c.id, dest: target }]
        } else {
            rename
        };
        (ops, m1.insert(c.id, fresh_record(parent, dir, c)), false)
    }
}

/// The children from `i` on, in listing order, after the operations `ops`
/// that the earlier ones asked for.
pub open spec fn plan_from(
    parent: Seq<char>,
    dir: Seq<char>,
    cs: Seq<RemoteView>,
    i: int,
    m: Map<Seq<char>, VersionView>,
    ops: Seq<OpView>,
) -> (Seq<OpView>, Map<Seq<char>, VersionView>, bool)
    decreases cs.len() - i,
{
    if i < 0 || i >= cs.len() {
        (ops, m, false)
    } else {
        let (o, m2, stop) = child_step(parent, dir, cs[i], m);
        if stop {
            (ops, m2, true)
        } else {
            plan_from(parent, dir, cs, i + 1, m2, ops + o)
        }
    }
}

/// What a whole listing asks for.
pub open spec fn plan(
    parent: Seq<char>,
    dir: Seq<char>,
    cs: Seq<RemoteView>,
    m: Map<Seq<char>, VersionView>,
) -> (Seq<OpView>, Map<Seq<char>, VersionView>, bool) {
    plan_from(parent, dir, cs, 0, m, Seq::empty())
}

/// The operations for one listing, and whether it was cut short by a name
/// that cannot be a directory entry.
pub struct Listing {
    pub ops: Vec<FsOp>,
    pub stopped: bool,
}

pub fn join_path(dir: &String, name: &String) -> (r: String)
    ensures
        r@ == join(dir@, name@),
{
    let cs = chars_of(dir.as_str());
    let mut r = dir.clone();
    if !(cs.len() > 0 && cs[cs.len() - 1] == '/') {
        r.append("/");
        proof {
            reveal_strlit("/");
        }
    }
    r.append(name.as_str());
    assert(r@ =~= join(dir@, name@));
    r
}

pub fn path_is_within(p: &String, dir: &String) -> (r: bool)
    ensures
        r == is_within(p@, dir@),
{
    let pc = chars_of(p.as_str());
    let dc = chars_of(dir.as_str());
    if dc.len() > pc.len() {
        return false;
    }
    let mut k: usize = 0;
    while k < dc.len()
        invariant
            k <= dc.len() <= pc.len(),
            pc@ == p@,
            dc@ == dir@,
            forall|j: int| 0 <= j < k ==> pc@[j] == dc@[j],
        decreases dc.len() - k,
    {
        if pc[k] != dc[k] {
            assert(pc@.subrange(0, dc.len() as int)[k as int] != dc@[k as int]);
            return false;
        }
        k = k + 1;
    }
    assert(pc@.subrange(0, dc.len() as int) =~= dc@);
    pc.len() == dc.len() || pc[dc.len()] == '/' || (dc.len() > 0 && dc[dc.len() - 1] == '/')
}

pub fn contains_separator(name: &String) -> (r: bool)
    ensures
        r == has_separator(name@),
{
    let cs = chars_of(name.as_str());
    let mut k: usize = 0;
    while k < cs.len()
        invariant
            k <= cs.len(),
            cs@ == name@,
            forall|j: int| 0 <= j < k ==> cs@[j] != '/',
        decreases cs.len() - k,
    {
        if cs[k] == '/' {
            return true;
        }
        k = k + 1;
    }
    false
}

/// Applies what one child asks for to the cache and appends its operations;
/// true where the walk of this folder stops at it.
fn plan_child(
    parent: &String,
    dir: &String,
    c: &RemoteObject,
    map: &mut VersionMap,
    ops: &mut Vec<FsOp>,
) -> (stop: bool)
    requires
        old(map).wf(),
    ensures
        final(map).wf(),
        (ops_view(final(ops)@), final(map)@, stop) == ({
            let (o, m2, s) = child_step(parent@, dir@, c@, old(map)@);
            (ops_view(old(ops)@) + o, m2, s)
        }),
{
    let ghost m0 = map@;
    let ghost o0 = ops@;
    let target = join_path(dir, &c.name);
    let recorded = match map.get(&c.id) {
        Some(v) => Some(v.duplicate()),
        None => None,
    };
    let known = recorded.is_some();
    if let Some(v) = &recorded {
        if !path_is_within(&v.path, dir) {
            let moved = Version {
                path: target.clone(),
                version: v.version.clone(),
                content_hash: clone_opt_string(&v.content_hash),
                parent_id: v.parent_id.clone(),
                is_folder: v.is_folder,
            };
            map.insert(c.id.clone(), moved);
        }
    }
    assert(map@ == relocated(dir@, c@, m0));
    if let Some(v) = &recorded {
        if v.version == c.version {
            assert(ops_view(ops@) =~= ops_view(o0) + Seq::<OpView>::empty());
            return false;
        }
    }
    if c.trashed {
        if let Some(v) = recorded {
            ops.push(FsOp::Remove { path: v.path, is_folder: v.is_folder });
        }
        map.remove(&c.id);
        assert(ops_view(ops@) =~= ops_view(o0) + child_step(parent@, dir@, c@, m0).0);
        return false;
    }
    if contains_separator(&c.name) {
        assert(ops_view(ops@) =~= ops_view(o0));
        return true;
    }
    let mut download = true;
    if let Some(v) = &recorded {
        if v.path != target {
            ops.push(FsOp::Rename { from: v.path.clone(), to: target.clone() });
        }
        download = !opt_string_eq(&v.content_hash, &c.content_hash);
    }
    if c.is_folder {
        ops.push(FsOp::EnsureDir { path: target.clone() });
        ops.push(FsOp::Descend { id: c.id.clone(), path: target.clone() });
    } else if download {
        ops.push(FsOp::Download { id: c.id.clone(), dest: target.clone() });
    }
    let fresh = Version {
        path: target,
        version: c.version.clone(),
        content_hash: clone_opt_string(&c.content_hash),
        parent_id: parent.clone(),
        is_folder: c.is_folder,
    };
    map.insert(c.id.clone(), fresh);
    assert(ops_view(ops@) =~= ops_view(o0) + child_step(parent@, dir@, c@, m0).0);
    false
}

/// Reconciles the listing `children` of the remote folder `parent_id`,
/// mirrored at `dir`, against the cache: updates the cache and returns the
/// operations that bring the local tree in line, in listing order.
pub fn plan_listing(
    parent_id: &String,
    dir: &String,
    children: &Vec<RemoteObject>,
    map: &mut VersionMap,
) -> (r: Listing)
    requires
        old(map).wf(),
    ensures
        final(map).wf(),
        (ops_view(r.ops@), final(map)@, r.stopped) == plan(
            parent_id@,
            dir@,
            remote_views(children@),
            old(map)@,
        ),
{
    let ghost cs = remote_views(children@);
    let mut ops: Vec<FsOp> = Vec::new();
    let mut i: usize = 0;
    assert(ops_view(ops@) =~= Seq::<OpView>::empty());
    while i < children.len()
        invariant
            i <= children.len(),
            cs == remote_views(children@),
            map.wf(),
            plan(parent_id@, dir@, cs, old(map)@) == plan_from(
                parent_id@,
                dir@,
                cs,
                i as int,
                map@,
                ops_view(ops@),
            ),
        decreases children.len() - i,
    {
        let stop = plan_child(parent_id, dir, &children[i], map, &mut ops);
        if stop {
            return Listing { ops, stopped: true };
        }
        i = i + 1;
    }
    Listing { ops, stopped: false }
}

/// The cache already holds what `c` asks for: its recorded stamp is the
/// listed one and its recorded path lies in `dir`, or it is trashed and not
/// recorded.
pub open spec fn settled(dir: Seq<char>, c: RemoteView, m: Map<Seq<char>, VersionView>) -> bool {
    ||| (m.contains_key(c.id) && m[c.id].version == c.version && is_within(m[c.id].path, dir))
    ||| (!m.contains_key(c.id) && c.trashed)
}

proof fn lemma_join_within(dir: Seq<char>, name: Seq<char>)
    ensures
        is_within(join(dir, name), dir),
{
    let p = join(dir, name);
    assert(p.subrange(0, dir.len() as int) =~= dir);
    if !(dir.len() > 0 && dir.last() == '/') {
        assert(p[dir.len() as int] == '/');
    }
}

proof fn lemma_settled_step(
    parent: Seq<char>,
    dir: Seq<char>,
    c: RemoteView,
    m: Map<Seq<char>, VersionView>,
)
    requires
        settled(dir, c, m),
    ensures
        child_step(parent, dir, c, m) == (Seq::<OpView>::empty(), m, false),
{
    if !m.contains_key(c.id) {
        assert(m.remove(c.id) =~= m);
    }
}

proof fn lemma_step_settles(
    parent: Seq<char>,
    dir: Seq<char>,
    c: RemoteView,
    m: Map<Seq<char>, VersionView>,
)
    ensures
        !child_step(parent, dir, c, m).2 ==> settled(dir, c, child_step(parent, dir, c, m).1),
        child_step(parent, dir, c, m).2 ==> child_step(parent, dir, c, child_step(parent, dir, c, m).1)
            == (Seq::<OpView>::empty(), child_step(parent, dir, c, m).1, true),
        forall|k: Seq<char>|
            k != c.id ==> (#[trigger] child_step(parent, dir, c, m).1.contains_key(k)
                == m.contains_key(k) && (m.contains_key(k) ==> child_step(parent, dir, c, m).1[k]
                == m[k])),
{
    lemma_join_within(dir, c.name);
}

proof fn lemma_plan_frame(
    parent: Seq<char>,
    dir: Seq<char>,
    cs: Seq<RemoteView>,
    i: int,
    m: Map<Seq<char>, VersionView>,
    ops: Seq<OpView>,
    k: Seq<char>,
)
    requires
        0 <= i,
        forall|j: int| i <= j < cs.len() ==> cs[j].id != k,
    ensures
        plan_from(parent, dir, cs, i, m, ops).1.contains_key(k) == m.contains_key(k),
        m.contains_key(k) ==> plan_from(parent, dir, cs, i, m, ops).1[k] == m[k],
    decreases cs.len() - i,
{
    if i < cs.len() {
        lemma_step_settles(parent, dir, cs[i], m);
        let (o, m2, stop) = child_step(parent, dir, cs[i], m);
        if !stop {
            lemma_plan_frame(parent, dir, cs, i + 1, m2, ops + o, k);
        }
    }
}

proof fn lemma_replan_from(
    parent: Seq<char>,
    dir: Seq<char>,
    cs: Seq<RemoteView>,
    i: int,
    m: Map<Seq<char>, VersionView>,
    ops: Seq<OpView>,
    ops2: Seq<OpView>,
)
    requires
        0 <= i,
        forall|a: int, b: int| 0 <= a < b < cs.len() ==> cs[a].id != cs[b].id,
    ensures
        plan_from(parent, dir, cs, i, plan_from(parent, dir, cs, i, m, ops).1, ops2) == (
            ops2,
            plan_from(parent, dir, cs, i, m, ops).1,
            plan_from(parent, dir, cs, i, m, ops).2,
        ),
    decreases cs.len() - i,
{
    if i < cs.len() {
        let c = cs[i];
        lemma_step_settles(parent, dir, c, m);
        let (o, m2, stop) = child_step(parent, dir, c, m);
        if !stop {
            let r = plan_from(parent, dir, cs, i + 1, m2, ops + o);
            lemma_replan_from(parent, dir, cs, i + 1, m2, ops + o, ops2);
            assert forall|j: int| i + 1 <= j < cs.len() implies cs[j].id != c.id by {
                assert(cs[i].id != cs[j].id);
            }
            lemma_plan_frame(parent, dir, cs, i + 1, m2, ops + o, c.id);
            assert(settled(dir, c, r.1));
            lemma_settled_step(parent, dir, c, r.1);
            assert(ops2 + Seq::<OpView>::empty() =~= ops2);
        }
    }
}

/// Reconciling a listing a second time, against the cache that the first
/// pass left and with nothing changed remotely, asks for no operation and
/// leaves the cache as it is.
pub proof fn lemma_second_pass_is_quiet(
    parent: Seq<char>,
    dir: Seq<char>,
    cs: Seq<RemoteView>,
    m: Map<Seq<char>, VersionView>,
)
    requires
        forall|a: int, b: int| 0 <= a < b < cs.len() ==> cs[a].id != cs[b].id,
    ensures
        plan(parent, dir, cs, plan(parent, dir, cs, m).1) == (
            Seq::<OpView>::empty(),
            plan(parent, dir, cs, m).1,
            plan(parent, dir, cs, m).2,
        ),
{
    lemma_replan_from(parent, dir, cs, 0, m, Seq::empty(), Seq::empty());
}

/// The folder that an operation descends into, if it is a descent.
pub open spec fn descent_target(op: OpView) -> Option<Seq<char>> {
    match op {
        OpView::Descend { id, .. } => Some(id),
        _ => None,
    }
}

/// Every descent in `ops` is into a folder of `cs` whose listed stamp is not
/// the one that `m` records for it.
pub open spec fn descents_changed(
    ops: Seq<OpView>,
    cs: Seq<RemoteView>,
    m: Map<Seq<char>, VersionView>,
) -> bool {
    forall|k: int|
        0 <= k < ops.len() && #[trigger] descent_target(ops[k]) is Some ==> exists|i: int|
            0 <= i < cs.len() && cs[i].is_folder && cs[i].id == descent_target(ops[k])->0 && !(
            m.contains_key(cs[i].id) && m[cs[i].id].version == cs[i].version)
}

proof fn lemma_descents_from(
    parent: Seq<char>,
    dir: Seq<char>,
    cs: Seq<RemoteView>,
    i: int,
    mm: Map<Seq<char>, VersionView>,
    ops: Seq<OpView>,
    m: Map<Seq<char>, VersionView>,
)
    requires
        0 <= i,
        forall|a: int, b: int| 0 <= a < b < cs.len() ==> cs[a].id != cs[b].id,
        forall|j: int|
            i <= j < cs.len() ==> (mm.contains_key(cs[j].id) == m.contains_key(cs[j].id) && (
            m.contains_key(cs[j].id) ==> mm[cs[j].id] == m[cs[j].id])),
        descents_changed(ops, cs, m),
    ensures
        descents_changed(plan_from(parent, dir, cs, i, mm, ops).0, cs, m),
    decreases cs.len() - i,
{
    if i < cs.len() {
        let c = cs[i];
        lemma_step_settles(parent, dir, c, mm);
        let (o, m2, stop) = child_step(parent, dir, c, mm);
        if !stop {
            let n = ops + o;
            assert forall|k: int|
                0 <= k < n.len() && #[trigger] descent_target(n[k]) is Some implies exists|i2: int|
                0 <= i2 < cs.len() && cs[i2].is_folder && cs[i2].id == descent_target(n[k])->0 && !(
                m.contains_key(cs[i2].id) && m[cs[i2].id].version == cs[i2].version) by {
                if k < ops.len() {
                    assert(n[k] == ops[k]);
                } else {
                    assert(n[k] == o[k - ops.len()]);
                    let target = join(dir, c.name);
                    let known = mm.contains_key(c.id);
                    let rename = if known && mm[c.id].path != target {
                        seq![OpView::Rename { from: mm[c.id].path, to: target }]
                    } else {
                        Seq::empty()
                    };
                    assert(descent_target(o[k - ops.len()]) is Some);
                    if !(known && mm[c.id].version == c.version) && !c.trashed && !has_separator(
                        c.name,
                    ) {
                        if c.is_folder {
                            assert(o == rename + seq![OpView::EnsureDir { path: target }, OpView::Descend { id: c.id, path: target }]);
                            assert(o[k - ops.len()] == OpView::Descend { id: c.id, path: target });
                        } else if !known || mm[c.id].content_hash != c.content_hash {
                            assert(o == rename + seq![OpView::Download { id: c.id, dest: target }]);
                        }
                    }
                    assert(c.is_folder && !(known && mm[c.id].version == c.version));
                    assert(descent_target(n[k])->0 == c.id);
                }
            }
            assert forall|j: int| i + 1 <= j < cs.len() implies (m2.contains_key(cs[j].id)
                == m.contains_key(cs[j].id) && (m.contains_key(cs[j].id) ==> m2[cs[j].id]
                == m[cs[j].id])) by {
                assert(cs[i].id != cs[j].id);
            }
            lemma_descents_from(parent, dir, cs, i + 1, m2, n, m);
        }
    }
}

/// A listing asks to descend only into child folders whose listed stamp
/// differs from the recorded one: a folder whose stamp is unchanged is never
/// listed again.
pub proof fn lemma_descends_only_into_changed(
    parent: Seq<char>,
    dir: Seq<char>,
    cs: Seq<RemoteView>,
    m: Map<Seq<char>, VersionView>,
)
    requires
        forall|a: int, b: int| 0 <= a < b < cs.len() ==> cs[a].id != cs[b].id,
    ensures
        descents_changed(plan(parent, dir, cs, m).0, cs, m),
{
    lemma_descents_from(parent, dir, cs, 0, m, Seq::empty(), m);
}

} // verus!
