use crate::error::InstallError;
use crate::paths::{
    is_dot, is_dot_dot, is_forbidden, is_plain_component, is_sep, join_all, lemma_join_prefix, sep_seq,
    str_is_dot, str_is_dot_dot, strictly_below,
};
use vstd::prelude::*;
use vstd::string::{StrSliceExecFns, StringExecFns};

verus! {

/// Scanner state over an archive name: whether the name is still
/// acceptable, the components kept so far, and the component being read.
pub type ScanState = (bool, Seq<Seq<char>>, Seq<char>);

/// Closes the component being read: empty and `.` components vanish, `..`
/// removes the last kept component (and spoils the name if there is none),
/// any other component is kept.
pub open spec fn close_component(ok: bool, comps: Seq<Seq<char>>, cur: Seq<char>) -> (bool, Seq<Seq<char>>) {
    if cur.len() == 0 || is_dot(cur) {
        (ok, comps)
    } else if is_dot_dot(cur) {
        if comps.len() == 0 {
            (false, comps)
        } else {
            (ok, comps.drop_last())
        }
    } else {
        (ok, comps.push(cur))
    }
}

pub open spec fn scan_step(st: ScanState, c: char) -> ScanState {
    if is_sep(c) {
        let closed = close_component(st.0, st.1, st.2);
        (closed.0, closed.1, Seq::empty())
    } else if is_forbidden(c) {
        (false, st.1, st.2.push(c))
    } else {
        (st.0, st.1, st.2.push(c))
    }
}

pub open spec fn scan(s: Seq<char>) -> ScanState
    decreases s.len(),
{
    if s.len() == 0 {
        (true, Seq::empty(), Seq::empty())
    } else {
        scan_step(scan(s.drop_last()), s.last())
    }
}

/// The components an archive name stands for once `.` and `..` are
/// resolved, or `None` when it is absolute, holds a drive marker or a NUL,
/// or climbs above the directory it is extracted into.
pub open spec fn normalized(s: Seq<char>) -> Option<Seq<Seq<char>>> {
    if s.len() > 0 && is_sep(s[0]) {
        None
    } else {
        let st = scan(s);
        let closed = close_component(st.0, st.1, st.2);
        if closed.0 {
            Some(closed.1)
        } else {
            None
        }
    }
}

/// Closes a component when only `/` separates components: `..` climbs one
/// level (and spoils the name at the top), any other non-empty component
/// but `.` descends one level.
pub open spec fn slash_close(ok: bool, depth: nat, cur: Seq<char>) -> (bool, nat) {
    if cur.len() == 0 || is_dot(cur) {
        (ok, depth)
    } else if is_dot_dot(cur) {
        if depth == 0 {
            (false, depth)
        } else {
            (ok, (depth - 1) as nat)
        }
    } else {
        (ok, depth + 1)
    }
}

pub open spec fn slash_scan(s: Seq<char>) -> (bool, nat, Seq<char>)
    decreases s.len(),
{
    if s.len() == 0 {
        (true, 0, Seq::empty())
    } else {
        let st = slash_scan(s.drop_last());
        if s.last() == '/' {
            let closed = slash_close(st.0, st.1, st.2);
            (closed.0, closed.1, Seq::empty())
        } else {
            (st.0, st.1, st.2.push(s.last()))
        }
    }
}

/// The name stays inside its directory when `/` alone separates
/// components, as on platforms where `\\` is an ordinary character: it does
/// not start with `/` and no `..` climbs above its top.
pub open spec fn slash_enclosed(s: Seq<char>) -> bool {
    &&& !(s.len() > 0 && s[0] == '/')
    &&& ({
        let st = slash_scan(s);
        slash_close(st.0, st.1, st.2).0
    })
}

/// A name that stays inside the directory it is extracted into whichever of
/// `/` and `\\` separate components: on every platform the archive reader
/// accepts it too.
pub open spec fn safe_name(s: Seq<char>) -> bool {
    normalized(s) is Some && slash_enclosed(s)
}

proof fn lemma_slash_depth(s: Seq<char>)
    ensures
        slash_scan(s).1 <= s.len(),
    decreases s.len(),
{
    if s.len() > 0 {
        lemma_slash_depth(s.drop_last());
    }
}

/// Whether `name@` is `slash_enclosed`.
pub fn is_slash_enclosed(name: &str) -> (r: bool)
    ensures
        r == slash_enclosed(name@),
{
    let n = name.unicode_len();
    if n > 0 && name.get_char(0) == '/' {
        return false;
    }
    let mut ok = true;
    let mut depth: usize = 0;
    let mut start: usize = 0;
    let mut i: usize = 0;
    assert(name@.subrange(0, 0) =~= Seq::<char>::empty());
    while i < n
        invariant
            n == name@.len(),
            start <= i <= n,
            depth <= i,
            !(n > 0 && name@[0] == '/'),
            (ok, depth as nat, name@.subrange(start as int, i as int)) == slash_scan(name@.subrange(0, i as int)),
        decreases n - i,
    {
        let c = name.get_char(i);
        assert(name@.subrange(0, i + 1).drop_last() =~= name@.subrange(0, i as int));
        if c == '/' {
            let cur = name.substring_char(start, i);
            if cur.unicode_len() == 0 || str_is_dot(cur) {
            } else if str_is_dot_dot(cur) {
                if depth == 0 {
                    ok = false;
                } else {
                    depth = depth - 1;
                }
            } else {
                depth = depth + 1;
            }
            start = i + 1;
            assert(name@.subrange(start as int, i + 1) =~= Seq::<char>::empty());
        } else {
            assert(name@.subrange(start as int, i + 1) =~= name@.subrange(start as int, i as int).push(c));
        }
        i = i + 1;
    }
    assert(name@.subrange(0, n as int) =~= name@);
    let cur = name.substring_char(start, n);
    if cur.unicode_len() == 0 || str_is_dot(cur) {
        ok
    } else if str_is_dot_dot(cur) {
        ok && depth > 0
    } else {
        ok
    }
}

pub open spec fn views(v: Seq<String>) -> Seq<Seq<char>> {
    v.map_values(|s: String| s@)
}

proof fn lemma_scan_shape(s: Seq<char>)
    ensures
        scan(s).0 ==> forall|i: int| 0 <= i < scan(s).1.len() ==> is_plain_component(#[trigger] scan(s).1[i]),
        forall|j: int| 0 <= j < scan(s).2.len() ==> !is_sep(#[trigger] scan(s).2[j]),
        scan(s).0 ==> forall|j: int| 0 <= j < scan(s).2.len() ==> !is_forbidden(#[trigger] scan(s).2[j]),
    decreases s.len(),
{
    if s.len() > 0 {
        lemma_scan_shape(s.drop_last());
        let st = scan(s.drop_last());
        lemma_close_shape(st.0, st.1, st.2);
        let c = s.last();
        if !is_sep(c) {
            assert forall|j: int| 0 <= j < scan(s).2.len() implies !is_sep(#[trigger] scan(s).2[j]) by {
                if j < st.2.len() {
                    assert(scan(s).2[j] == st.2[j]);
                }
            }
            if scan(s).0 {
                assert forall|j: int| 0 <= j < scan(s).2.len() implies !is_forbidden(#[trigger] scan(s).2[j]) by {
                    if j < st.2.len() {
                        assert(scan(s).2[j] == st.2[j]);
                    }
                }
            }
        }
    }
}

proof fn lemma_close_shape(ok: bool, comps: Seq<Seq<char>>, cur: Seq<char>)
    requires
        ok ==> forall|i: int| 0 <= i < comps.len() ==> is_plain_component(#[trigger] comps[i]),
        forall|j: int| 0 <= j < cur.len() ==> !is_sep(#[trigger] cur[j]),
        ok ==> forall|j: int| 0 <= j < cur.len() ==> !is_forbidden(#[trigger] cur[j]),
    ensures
        close_component(ok, comps, cur).0 ==> ok,
        close_component(ok, comps, cur).0 ==> forall|i: int| 0 <= i < close_component(ok, comps, cur).1.len()
            ==> is_plain_component(#[trigger] close_component(ok, comps, cur).1[i]),
{
    let r = close_component(ok, comps, cur);
    if cur.len() == 0 || is_dot(cur) {
    } else if is_dot_dot(cur) {
        if comps.len() > 0 && ok {
            assert forall|i: int| 0 <= i < r.1.len() implies is_plain_component(#[trigger] r.1[i]) by {
                assert(r.1[i] == comps[i]);
            }
        }
    } else if ok {
        assert forall|i: int| 0 <= i < r.1.len() implies is_plain_component(#[trigger] r.1[i]) by {
            if i < comps.len() {
                assert(r.1[i] == comps[i]);
            }
        }
    }
}

/// Every component of a normalized name is plain.
pub proof fn lemma_normalized_plain(s: Seq<char>)
    ensures
        normalized(s) matches Some(c) ==> forall|i: int| 0 <= i < c.len() ==> is_plain_component(#[trigger] c[i]),
{
    lemma_scan_shape(s);
    let st = scan(s);
    lemma_close_shape(st.0, st.1, st.2);
}

fn close_component_exec(ok: bool, comps: &mut Vec<String>, cur: &str) -> (r: bool)
    ensures
        (r, views(final(comps)@)) == close_component(ok, views(old(comps)@), cur@),
{
    if cur.unicode_len() == 0 || str_is_dot(cur) {
        ok
    } else if str_is_dot_dot(cur) {
        if comps.len() == 0 {
            false
        } else {
            comps.pop();
            assert(views(comps@) =~= views(old(comps)@).drop_last());
            ok
        }
    } else {
        comps.push(String::from_str(cur));
        assert(views(comps@) =~= views(old(comps)@).push(cur@));
        ok
    }
}

/// Resolves an archive name to its components, as `normalized` says.
pub fn normalize_name(name: &str) -> (r: Option<Vec<String>>)
    ensures
        r matches Some(v) ==> normalized(name@) == Some(views(v@)),
        r is None ==> normalized(name@) is None,
{
    let n = name.unicode_len();
    if n > 0 {
        let c0 = name.get_char(0);
        if c0 == '/' || c0 == '\\' {
            return None;
        }
    }
    let mut ok = true;
    let mut comps: Vec<String> = Vec::new();
    let mut start: usize = 0;
    let mut i: usize = 0;
    assert(name@.subrange(0, 0) =~= Seq::<char>::empty());
    assert(views(comps@) =~= Seq::<Seq<char>>::empty());
    while i < n
        invariant
            n == name@.len(),
            start <= i <= n,
            (ok, views(comps@), name@.subrange(start as int, i as int)) == scan(name@.subrange(0, i as int)),
        decreases n - i,
    {
        let c = name.get_char(i);
        let ghost pre = name@.subrange(0, i as int);
        assert(name@.subrange(0, i + 1).drop_last() =~= pre);
        if c == '/' || c == '\\' {
            let cur = name.substring_char(start, i);
            ok = close_component_exec(ok, &mut comps, cur);
            start = i + 1;
            assert(name@.subrange(start as int, i + 1) =~= Seq::<char>::empty());
        } else {
            if c == ':' || c == '\0' {
                ok = false;
            }
            assert(name@.subrange(start as int, i + 1) =~= name@.subrange(start as int, i as int).push(c));
        }
        i = i + 1;
    }
    assert(name@.subrange(0, n as int) =~= name@);
    let cur = name.substring_char(start, n);
    ok = close_component_exec(ok, &mut comps, cur);
    if ok {
        Some(comps)
    } else {
        None
    }
}

/// One record of an archive, as read from it.
pub struct ArchiveEntry {
    /// The name as stored in the archive.
    pub name: String,
    /// The record stands for a directory.
    pub is_dir: bool,
    /// The archive reader judged the name safe to use below a directory.
    pub enclosed: bool,
    /// Permission bits, where the record carries them.
    pub mode: Option<u32>,
    /// The decompressed content (empty for a directory).
    pub data: Vec<u8>,
}

/// One step of an extraction: create the directory `path`, or write `data`
/// to the file `path`, creating the missing directories above it; then apply
/// `mode` where the platform has permission bits.
pub struct ExtractOp {
    pub path: String,
    pub is_dir: bool,
    pub mode: Option<u32>,
    pub data: Vec<u8>,
}

/// Target path, directory flag, mode and content of an extraction step.
pub type OpModel = (Seq<char>, bool, Option<u32>, Seq<u8>);

impl ExtractOp {
    pub open spec fn model(&self) -> OpModel {
        (self.path@, self.is_dir, self.mode, self.data@)
    }
}

pub open spec fn op_models(ops: Seq<ExtractOp>) -> Seq<OpModel> {
    ops.map_values(|o: ExtractOp| o.model())
}

/// The step an entry becomes under `root`, or `None` when it is skipped:
/// the reader judged its name unsafe, the name is not a `safe_name` (it
/// climbs out of `root` or is absolute), or it names `root` itself.
pub open spec fn entry_op(root: Seq<char>, e: ArchiveEntry) -> Option<OpModel> {
    if !e.enclosed || !slash_enclosed(e.name@) {
        None
    } else {
        match normalized(e.name@) {
            Some(c) => if c.len() == 0 {
                None
            } else {
                Some((join_all(root, c), e.is_dir, e.mode, e.data@))
            },
            None => None,
        }
    }
}

/// The steps for a list of entries, in stored order, skipped ones left out.
pub open spec fn plan_spec(root: Seq<char>, es: Seq<ArchiveEntry>) -> Seq<OpModel>
    decreases es.len(),
{
    if es.len() == 0 {
        Seq::empty()
    } else {
        plan_spec(root, es.drop_last()) + match entry_op(root, es.last()) {
            Some(o) => seq![o],
            None => Seq::empty(),
        }
    }
}

/// `root` followed by each component, each after one separator.
pub fn join_components(root: &str, comps: &Vec<String>) -> (r: String)
    ensures
        r@ == join_all(root@, views(comps@)),
{
    let mut r = String::from_str(root);
    let mut i: usize = 0;
    proof {
        assert(views(comps@).take(0) =~= Seq::<Seq<char>>::empty());
    }
    while i < comps.len()
        invariant
            i <= comps.len(),
            r@ == join_all(root@, views(comps@).take(i as int)),
        decreases comps.len() - i,
    {
        proof {
            reveal_strlit("\\");
        }
        r.append("\\");
        r.append(comps[i].as_str());
        assert(views(comps@).take(i + 1).drop_last() =~= views(comps@).take(i as int));
        assert(views(comps@).take(i + 1).last() == comps@[i as int]@);
        i = i + 1;
    }
    assert(views(comps@).take(i as int) =~= views(comps@));
    r
}

/// The step for one entry under `root`, as `entry_op` says.
pub fn plan_entry(root: &str, e: &ArchiveEntry) -> (r: Option<ExtractOp>)
    ensures
        r matches Some(o) ==> entry_op(root@, *e) == Some(o.model()),
        r is None ==> entry_op(root@, *e) is None,
{
    if !e.enclosed || !is_slash_enclosed(e.name.as_str()) {
        return None;
    }
    match normalize_name(e.name.as_str()) {
        Some(comps) => {
            if comps.len() == 0 {
                None
            } else {
                let path = join_components(root, &comps);
                let data = vstd::slice::slice_to_vec(e.data.as_slice());
                Some(ExtractOp { path, is_dir: e.is_dir, mode: e.mode, data })
            }
        },
        None => None,
    }
}

/// The extraction steps for `entries` below `root`: one per entry in stored
/// order, leaving out every entry whose name is unsafe or would land outside
/// `root`.
pub fn plan_entries(root: &str, entries: &Vec<ArchiveEntry>) -> (r: Vec<ExtractOp>)
    ensures
        op_models(r@) == plan_spec(root@, entries@),
{
    let mut ops: Vec<ExtractOp> = Vec::new();
    let mut i: usize = 0;
    assert(entries@.take(0) =~= Seq::<ArchiveEntry>::empty());
    assert(op_models(ops@) =~= Seq::<OpModel>::empty());
    while i < entries.len()
        invariant
            i <= entries.len(),
            op_models(ops@) == plan_spec(root@, entries@.take(i as int)),
        decreases entries.len() - i,
    {
        assert(entries@.take(i + 1).drop_last() =~= entries@.take(i as int));
        assert(entries@.take(i + 1).last() == entries@[i as int]);
        let ghost before = op_models(ops@);
        match plan_entry(root, &entries[i]) {
            Some(o) => {
                ops.push(o);
                assert(op_models(ops@) =~= before + seq![ops@.last().model()]);
            },
            None => {
                assert(op_models(ops@) =~= before + Seq::<OpModel>::empty());
            },
        }
        i = i + 1;
    }
    assert(entries@.take(i as int) =~= entries@);
    ops
}

/// `p` is `root` followed by one or more ordinary components.
pub open spec fn built_below(root: Seq<char>, p: Seq<char>) -> bool {
    exists|c: Seq<Seq<char>>|
        #![trigger join_all(root, c)]
        c.len() > 0 && (forall|j: int| 0 <= j < c.len() ==> is_plain_component(#[trigger] c[j])) && p
            == join_all(root, c)
}

/// Path safety of extraction: every step of a plan targets a path strictly
/// below `root`, built from `root` by ordinary components alone, so no entry
/// (`../../evil`, an absolute name, a drive name) is written outside it.
pub proof fn lemma_plan_stays_below_root(root: Seq<char>, es: Seq<ArchiveEntry>)
    ensures
        forall|i: int|
            0 <= i < plan_spec(root, es).len() ==> built_below(root, #[trigger] plan_spec(root, es)[i].0)
                && strictly_below(root, plan_spec(root, es)[i].0),
    decreases es.len(),
{
    if es.len() > 0 {
        lemma_plan_stays_below_root(root, es.drop_last());
        let prev = plan_spec(root, es.drop_last());
        let e = es.last();
        lemma_normalized_plain(e.name@);
        let tail = match entry_op(root, e) {
            Some(o) => seq![o],
            None => Seq::<OpModel>::empty(),
        };
        assert(plan_spec(root, es) == prev + tail);
        assert forall|i: int| 0 <= i < plan_spec(root, es).len() implies built_below(
            root,
            #[trigger] plan_spec(root, es)[i].0,
        ) && strictly_below(root, plan_spec(root, es)[i].0) by {
            if i < prev.len() {
                assert(plan_spec(root, es)[i] == prev[i]);
            } else {
                assert(entry_op(root, e) is Some);
                let c = normalized(e.name@)->0;
                assert(plan_spec(root, es)[i] == tail[0]);
                assert(plan_spec(root, es)[i].0 == join_all(root, c));
                lemma_join_prefix(root, c);
            }
        }
    }
}

/// What stands at a path: `None` for a directory, the bytes of a file.
pub type NodeModel = Option<Seq<u8>>;

/// A directory tree: each existing path with what stands there.
pub type TreeModel = Map<Seq<char>, NodeModel>;

pub open spec fn ensure_dir(v: Option<NodeModel>) -> Option<NodeModel> {
    if v is Some {
        v
    } else {
        Some(None)
    }
}

/// `k` is a directory above `p`.
pub open spec fn is_ancestor(k: Seq<char>, p: Seq<char>) -> bool {
    &&& k.len() < p.len()
    &&& p.subrange(0, k.len() as int) == k
    &&& p[k.len() as int] == '\\'
}

/// The step writes the file `k`.
pub open spec fn sets_key(op: OpModel, k: Seq<char>) -> bool {
    op.0 == k && !op.1
}

/// The step makes sure that a directory stands at `k`: it is the step's own
/// directory, or one between `root` and the step's target.
pub open spec fn ensures_key(root: Seq<char>, op: OpModel, k: Seq<char>) -> bool {
    ||| op.0 == k && op.1
    ||| op.0 != k && strictly_below(root, k) && is_ancestor(k, op.0)
}

pub open spec fn step_key(root: Seq<char>, op: OpModel, k: Seq<char>, v: Option<NodeModel>) -> Option<NodeModel> {
    if sets_key(op, k) {
        Some(Some(op.3))
    } else if ensures_key(root, op, k) {
        ensure_dir(v)
    } else {
        v
    }
}

/// What stands at `k` after the steps, starting from `v`.
pub open spec fn key_after(root: Seq<char>, ops: Seq<OpModel>, k: Seq<char>, v: Option<NodeModel>) -> Option<NodeModel>
    decreases ops.len(),
{
    if ops.len() == 0 {
        v
    } else {
        key_after(root, ops.drop_first(), k, step_key(root, ops[0], k, v))
    }
}

/// The tree after a successful run of the steps below `root` on `t`.
pub open spec fn tree_after(root: Seq<char>, ops: Seq<OpModel>, t: TreeModel) -> TreeModel {
    Map::new(
        |k: Seq<char>| key_after(root, ops, k, t.get(k)) is Some,
        |k: Seq<char>| key_after(root, ops, k, t.get(k))->0,
    )
}

pub open spec fn has_set(ops: Seq<OpModel>, k: Seq<char>) -> bool
    decreases ops.len(),
{
    ops.len() > 0 && (sets_key(ops[0], k) || has_set(ops.drop_first(), k))
}

pub open spec fn has_ensure(root: Seq<char>, ops: Seq<OpModel>, k: Seq<char>) -> bool
    decreases ops.len(),
{
    ops.len() > 0 && (ensures_key(root, ops[0], k) || has_ensure(root, ops.drop_first(), k))
}

proof fn lemma_set_forgets(root: Seq<char>, ops: Seq<OpModel>, k: Seq<char>, v1: Option<NodeModel>, v2: Option<NodeModel>)
    requires
        has_set(ops, k),
    ensures
        key_after(root, ops, k, v1) == key_after(root, ops, k, v2),
    decreases ops.len(),
{
    if !sets_key(ops[0], k) {
        lemma_set_forgets(root, ops.drop_first(), k, step_key(root, ops[0], k, v1), step_key(root, ops[0], k, v2));
    }
}

proof fn lemma_no_set(root: Seq<char>, ops: Seq<OpModel>, k: Seq<char>, v: Option<NodeModel>)
    requires
        !has_set(ops, k),
    ensures
        key_after(root, ops, k, v) == if has_ensure(root, ops, k) {
            ensure_dir(v)
        } else {
            v
        },
    decreases ops.len(),
{
    if ops.len() > 0 {
        let w = step_key(root, ops[0], k, v);
        lemma_no_set(root, ops.drop_first(), k, w);
    }
}

proof fn lemma_key_idempotent(root: Seq<char>, ops: Seq<OpModel>, k: Seq<char>, v: Option<NodeModel>)
    ensures
        key_after(root, ops, k, key_after(root, ops, k, v)) == key_after(root, ops, k, v),
{
    if has_set(ops, k) {
        lemma_set_forgets(root, ops, k, key_after(root, ops, k, v), v);
    } else {
        lemma_no_set(root, ops, k, v);
        lemma_no_set(root, ops, k, key_after(root, ops, k, v));
    }
}

proof fn lemma_tree_after_get(root: Seq<char>, ops: Seq<OpModel>, t: TreeModel, k: Seq<char>)
    ensures
        tree_after(root, ops, t).get(k) == key_after(root, ops, k, t.get(k)),
{
}

proof fn lemma_key_outside(root: Seq<char>, ops: Seq<OpModel>, k: Seq<char>, v: Option<NodeModel>)
    requires
        forall|i: int| 0 <= i < ops.len() ==> strictly_below(root, #[trigger] ops[i].0),
        !strictly_below(root, k),
    ensures
        key_after(root, ops, k, v) == v,
    decreases ops.len(),
{
    if ops.len() > 0 {
        assert(strictly_below(root, ops[0].0));
        assert forall|i: int| 0 <= i < ops.drop_first().len() implies strictly_below(root, #[trigger] ops.drop_first()[i].0) by {
            assert(ops.drop_first()[i] == ops[i + 1]);
        }
        lemma_key_outside(root, ops.drop_first(), k, v);
    }
}

/// Running the same steps again on the tree they produced changes nothing.
pub proof fn lemma_steps_idempotent(root: Seq<char>, ops: Seq<OpModel>, t: TreeModel)
    ensures
        tree_after(root, ops, tree_after(root, ops, t)) == tree_after(root, ops, t),
{
    let once = tree_after(root, ops, t);
    let twice = tree_after(root, ops, once);
    assert forall|k: Seq<char>| #[trigger] twice.get(k) == once.get(k) by {
        lemma_tree_after_get(root, ops, once, k);
        lemma_tree_after_get(root, ops, t, k);
        lemma_key_idempotent(root, ops, k, t.get(k));
    }
    assert forall|k: Seq<char>| #[trigger] twice.dom().contains(k) == once.dom().contains(k) by {
        assert(twice.get(k) == once.get(k));
    }
    assert forall|k: Seq<char>| twice.dom().contains(k) implies #[trigger] twice[k] == once[k] by {
        assert(twice.get(k) == once.get(k));
    }
    assert(twice =~= once);
}

/// Steps that all target paths strictly below `root` leave every other path
/// as it was.
pub proof fn lemma_steps_write_only_below_root(root: Seq<char>, ops: Seq<OpModel>, t: TreeModel, k: Seq<char>)
    requires
        forall|i: int| 0 <= i < ops.len() ==> strictly_below(root, #[trigger] ops[i].0),
        !strictly_below(root, k),
    ensures
        tree_after(root, ops, t).get(k) == t.get(k),
{
    lemma_tree_after_get(root, ops, t, k);
    lemma_key_outside(root, ops, k, t.get(k));
}

/// Re-running an extraction on the tree it produced changes nothing: for
/// every starting tree, applying the plan twice gives the tree that applying
/// it once gives.
pub proof fn lemma_extraction_idempotent(root: Seq<char>, es: Seq<ArchiveEntry>, t: TreeModel)
    ensures
        tree_after(root, plan_spec(root, es), tree_after(root, plan_spec(root, es), t)) == tree_after(
            root,
            plan_spec(root, es),
            t,
        ),
{
    lemma_steps_idempotent(root, plan_spec(root, es), t);
}

/// An extraction leaves every path that is not strictly below `root` as it
/// was.
pub proof fn lemma_extraction_writes_only_below_root(root: Seq<char>, es: Seq<ArchiveEntry>, t: TreeModel, k: Seq<char>)
    requires
        !strictly_below(root, k),
    ensures
        tree_after(root, plan_spec(root, es), t).get(k) == t.get(k),
{
    lemma_plan_stays_below_root(root, es);
    lemma_steps_write_only_below_root(root, plan_spec(root, es), t, k);
}

} // verus!
