use crate::archive::{built_below, join_components, views};
use crate::error::InstallError;
use crate::paths::{
    is_plain_component, is_sep, join_all, join_component, sep_seq, str_is_plain_component,
};
use vstd::prelude::*;
use vstd::string::{StrSliceExecFns, StringExecFns};

verus! {

/// `s` without its trailing separators and trailing `.` components.
pub open spec fn trim_end_seps(s: Seq<char>) -> Seq<char>
    decreases s.len(),
{
    if s.len() > 0 && is_sep(s.last()) {
        trim_end_seps(s.drop_last())
    } else if s.len() >= 2 && s.last() == '.' && is_sep(s[s.len() - 2]) {
        trim_end_seps(s.drop_last().drop_last())
    } else {
        s
    }
}

/// The characters after the last separator of `s`.
pub open spec fn last_component(s: Seq<char>) -> Seq<char>
    decreases s.len(),
{
    if s.len() > 0 && !is_sep(s.last()) {
        last_component(s.drop_last()).push(s.last())
    } else {
        Seq::empty()
    }
}

/// The name a source path is stored under: its last component, once
/// trailing separators and `.` components are dropped, or `None` when that
/// is not a plain component.
pub open spec fn base_name_of(s: Seq<char>) -> Option<Seq<char>> {
    let c = last_component(trim_end_seps(s));
    if is_plain_component(c) {
        Some(c)
    } else {
        None
    }
}

/// The last component of a source path, as `base_name_of` says.
pub fn base_name(s: &str) -> (r: Option<String>)
    ensures
        r matches Some(b) ==> base_name_of(s@) == Some(b@),
        r is None ==> base_name_of(s@) is None,
{
    let n = s.unicode_len();
    let mut j: usize = n;
    assert(s@.subrange(0, n as int) =~= s@);
    let mut trimmed = false;
    while j > 0 && !trimmed
        invariant
            j <= n == s@.len(),
            trim_end_seps(s@.subrange(0, j as int)) == trim_end_seps(s@),
            trimmed ==> trim_end_seps(s@.subrange(0, j as int)) == s@.subrange(0, j as int),
        decreases j + if trimmed { 0int } else { 1int },
    {
        let ghost pre = s@.subrange(0, j as int);
        let c = s.get_char(j - 1);
        assert(pre.drop_last() =~= s@.subrange(0, j - 1));
        if c == '/' || c == '\\' {
            j = j - 1;
        } else if c == '.' && j >= 2 && (s.get_char(j - 2) == '/' || s.get_char(j - 2) == '\\') {
            assert(pre.drop_last().drop_last() =~= s@.subrange(0, j - 2));
            j = j - 2;
        } else {
            trimmed = true;
        }
    }
    let ghost t = s@.subrange(0, j as int);
    assert(trim_end_seps(t) == t) by {
        if j == 0 {
            assert(t.len() == 0);
        }
    }
    let mut i: usize = j;
    assert(t.subrange(j as int, j as int) =~= Seq::<char>::empty());
    assert(s@.subrange(0, i as int) =~= t);
    while i > 0 && s.get_char(i - 1) != '/' && s.get_char(i - 1) != '\\'
        invariant
            i <= j <= n == s@.len(),
            t == s@.subrange(0, j as int),
            last_component(t) == last_component(s@.subrange(0, i as int)) + s@.subrange(i as int, j as int),
        decreases i,
    {
        let ghost pre = s@.subrange(0, i as int);
        assert(pre.drop_last() =~= s@.subrange(0, i - 1));
        assert(s@.subrange(i - 1, j as int) =~= seq![pre.last()] + s@.subrange(i as int, j as int));
        assert(last_component(pre) == last_component(pre.drop_last()).push(pre.last()));
        assert(last_component(pre.drop_last()).push(pre.last()) + s@.subrange(i as int, j as int)
            =~= last_component(pre.drop_last()) + s@.subrange(i - 1, j as int));
        i = i - 1;
    }
    assert(last_component(s@.subrange(0, i as int)) =~= Seq::<char>::empty());
    assert(last_component(t) =~= s@.subrange(i as int, j as int));
    let comp = s.substring_char(i, j);
    if str_is_plain_component(comp) {
        Some(String::from_str(comp))
    } else {
        None
    }
}

/// What stands at a source path.
pub enum SourceKind {
    Missing,
    File,
    Dir,
}

/// One entry below a source directory: its components relative to the
/// source, and whether it is a directory.
pub struct SourceItem {
    pub rel: Vec<String>,
    pub is_dir: bool,
}

/// One copy step: create the directory `to`, or copy the file `from` to `to`
/// over whatever file stands there.
pub struct CopyOp {
    pub from: String,
    pub to: String,
    pub is_dir: bool,
}

/// Source, target and directory flag of a copy step.
pub type CopyModel = (Seq<char>, Seq<char>, bool);

impl CopyOp {
    pub open spec fn model(&self) -> CopyModel {
        (self.from@, self.to@, self.is_dir)
    }
}

pub open spec fn copy_models(ops: Seq<CopyOp>) -> Seq<CopyModel> {
    ops.map_values(|o: CopyOp| o.model())
}

/// The step that mirrors one item of a source directory `src` into `dst`.
pub open spec fn mirror_item(src: Seq<char>, dst: Seq<char>, it: SourceItem) -> CopyModel {
    (join_all(src, views(it.rel@)), join_all(dst, views(it.rel@)), it.is_dir)
}

/// Every component of every item is plain, so no item leads out of the
/// directory it is listed under.
pub open spec fn items_plain(items: Seq<SourceItem>) -> bool {
    forall|i: int, j: int|
        #![trigger items[i].rel@[j]]
        0 <= i < items.len() && 0 <= j < items[i].rel@.len() ==> is_plain_component(items[i].rel@[j]@)
}

/// The steps that merge `source` into `root` under its own base name, or
/// `None` when the source has no usable base name or a listed item has a
/// component that is not plain. A missing source needs no
/// step; a file is copied once; a directory is created and each item below
/// it is mirrored at the same relative path, in listing order.
pub open spec fn copy_plan(root: Seq<char>, source: Seq<char>, kind: SourceKind, items: Seq<SourceItem>) -> Option<Seq<CopyModel>> {
    match kind {
        SourceKind::Missing => Some(Seq::empty()),
        _ => match base_name_of(source) {
            None => None,
            Some(b) => {
                let dst = root + sep_seq() + b;
                match kind {
                    SourceKind::File => Some(seq![(source, dst, false)]),
                    _ => if items_plain(items) {
                        Some(seq![(source, dst, true)] + items.map_values(|it: SourceItem| mirror_item(source, dst, it)))
                    } else {
                        None
                    },
                }
            },
        },
    }
}

/// Whether every component of the item is plain.
fn item_is_plain(it: &SourceItem) -> (r: bool)
    ensures
        r == forall|j: int| 0 <= j < it.rel@.len() ==> is_plain_component(#[trigger] it.rel@[j]@),
{
    let mut j: usize = 0;
    while j < it.rel.len()
        invariant
            j <= it.rel@.len(),
            forall|m: int| 0 <= m < j ==> is_plain_component(#[trigger] it.rel@[m]@),
        decreases it.rel.len() - j,
    {
        if !str_is_plain_component(it.rel[j].as_str()) {
            return false;
        }
        j = j + 1;
    }
    true
}

proof fn lemma_join_concat(base: Seq<char>, c1: Seq<Seq<char>>, c2: Seq<Seq<char>>)
    ensures
        join_all(join_all(base, c1), c2) == join_all(base, c1 + c2),
    decreases c2.len(),
{
    if c2.len() == 0 {
        assert(c1 + c2 =~= c1);
    } else {
        lemma_join_concat(base, c1, c2.drop_last());
        assert((c1 + c2).drop_last() =~= c1 + c2.drop_last());
        assert((c1 + c2).last() == c2.last());
    }
}

/// Every copy step targets a path built from `root` by plain components
/// alone, so a merge never writes outside the installation root.
pub proof fn lemma_copy_stays_below_root(root: Seq<char>, source: Seq<char>, kind: SourceKind, items: Seq<SourceItem>)
    ensures
        copy_plan(root, source, kind, items) matches Some(ops) ==> forall|i: int|
            0 <= i < ops.len() ==> built_below(root, #[trigger] ops[i].1),
{
    if let Some(ops) = copy_plan(root, source, kind, items) {
        if let Some(b) = base_name_of(source) {
            let dst = root + sep_seq() + b;
            let head = seq![b];
            assert(head.drop_last() =~= Seq::<Seq<char>>::empty());
            assert(join_all(root, head.drop_last()) == root);
            assert(head.last() == b);
            assert(join_all(root, head) == dst);
            assert(head[0] == b);
            assert forall|i: int| 0 <= i < ops.len() implies built_below(root, #[trigger] ops[i].1) by {
                if i == 0 {
                    assert(ops[0].1 == join_all(root, head));
                } else {
                    let it = items[i - 1];
                    let c = head + views(it.rel@);
                    lemma_join_concat(root, head, views(it.rel@));
                    assert(ops[i].1 == join_all(dst, views(it.rel@)));
                    assert forall|j: int| 0 <= j < c.len() implies is_plain_component(#[trigger] c[j]) by {
                        if j > 0 {
                            assert(c[j] == it.rel@[j - 1]@);
                            assert(items[i - 1].rel@[j - 1] == it.rel@[j - 1]);
                        }
                    }
                    assert(join_all(root, c) == ops[i].1);
                }
            }
        }
    }
}

/// Plans the merge of one caller-supplied path into `root`, as `copy_plan`
/// says. A source without a usable base name is an `IoFailure` naming it;
/// an item with a component that is not plain is an `IoFailure` naming the
/// item's source path.
pub fn plan_copy(root: &str, source: &str, kind: SourceKind, items: &Vec<SourceItem>) -> (r: Result<Vec<CopyOp>, InstallError>)
    ensures
        r is Ok <==> copy_plan(root@, source@, kind, items@) is Some,
        r matches Ok(ops) ==> copy_plan(root@, source@, kind, items@) == Some(copy_models(ops@)),
        r matches Err(e) ==> e matches InstallError::IoFailure(p) && (p@ == source@ || exists|k: int|
            0 <= k < items@.len() && p@ == join_all(source@, views(#[trigger] items@[k].rel@))),
        r matches Ok(ops) ==> forall|i: int| 0 <= i < ops@.len() ==> built_below(root@, #[trigger] ops@[i].to@),
        kind is Missing ==> (r matches Ok(ops) && ops@.len() == 0),
        kind is Dir ==> (r matches Ok(ops) ==> ops@.len() == items@.len() + 1 && forall|i: int|
            0 <= i < items@.len() ==> (#[trigger] ops@[i + 1]).model() == mirror_item(
                source@,
                ops@[0].to@,
                items@[i],
            )),
{
    let mut ops: Vec<CopyOp> = Vec::new();
    match kind {
        SourceKind::Missing => {
            assert(copy_models(ops@) =~= Seq::<CopyModel>::empty());
            return Ok(ops);
        },
        _ => {},
    }
    let b = match base_name(source) {
        Some(b) => b,
        None => return Err(InstallError::IoFailure(String::from_str(source))),
    };
    let dst = join_component(root, b.as_str());
    let is_dir = match kind {
        SourceKind::Dir => true,
        _ => false,
    };
    ops.push(CopyOp { from: String::from_str(source), to: String::from_str(dst.as_str()), is_dir });
    if !is_dir {
        assert(copy_models(ops@) =~= seq![(source@, dst@, false)]);
        proof {
            assert(copy_plan(root@, source@, kind, items@) == Some(copy_models(ops@)));
            lemma_copy_stays_below_root(root@, source@, kind, items@);
            assert(copy_models(ops@)[0] == ops@[0].model());
            let plan = copy_plan(root@, source@, kind, items@)->0;
            assert(plan == copy_models(ops@));
            assert(built_below(root@, plan[0].1));
        }
        return Ok(ops);
    }
    let ghost head = seq![(source@, dst@, true)];
    let ghost mirrored = items@.map_values(|it: SourceItem| mirror_item(source@, dst@, it));
    let mut i: usize = 0;
    assert(copy_models(ops@) =~= head + mirrored.take(0));
    while i < items.len()
        invariant
            kind is Dir,
            base_name_of(source@) == Some(b@),
            dst@ == root@ + sep_seq() + b@,
            i <= items@.len(),
            mirrored == items@.map_values(|it: SourceItem| mirror_item(source@, dst@, it)),
            copy_models(ops@) == head + mirrored.take(i as int),
            forall|k: int, j: int|
                #![trigger items@[k].rel@[j]]
                0 <= k < i && 0 <= j < items@[k].rel@.len() ==> is_plain_component(items@[k].rel@[j]@),
        decreases items.len() - i,
    {
        let from = join_components(source, &items[i].rel);
        assert(items[i as int] == items@[i as int]);
        if !item_is_plain(&items[i]) {
            proof {
                let j = choose|j: int| 0 <= j < items@[i as int].rel@.len() && !is_plain_component(
                    #[trigger] items@[i as int].rel@[j]@,
                );
                assert(!is_plain_component(items@[i as int].rel@[j]@));
                assert(!items_plain(items@));
                assert(from@ == join_all(source@, views(items@[i as int].rel@)));
            }
            return Err(InstallError::IoFailure(from));
        }
        assert(forall|j: int| 0 <= j < items@[i as int].rel@.len() ==> is_plain_component(
            #[trigger] items@[i as int].rel@[j]@,
        ));
        let to = join_components(dst.as_str(), &items[i].rel);
        let ghost before = copy_models(ops@);
        ops.push(CopyOp { from, to, is_dir: items[i].is_dir });
        assert(mirrored[i as int] == mirror_item(source@, dst@, items@[i as int]));
        assert(ops@.last().model() == mirrored[i as int]);
        assert(copy_models(ops@) =~= before.push(ops@.last().model()));
        assert(mirrored.take(i + 1) =~= mirrored.take(i as int).push(mirrored[i as int]));
        assert(copy_models(ops@) =~= head + mirrored.take(i + 1));
        i = i + 1;
    }
    assert(mirrored.take(i as int) =~= mirrored);
    assert(copy_models(ops@) == head + mirrored);
    assert(items_plain(items@));
    proof {
        assert(copy_plan(root@, source@, kind, items@) == Some(copy_models(ops@)));
        lemma_copy_stays_below_root(root@, source@, kind, items@);
        assert forall|m: int| 0 <= m < ops@.len() implies built_below(root@, #[trigger] ops@[m].to@) by {
            assert(copy_models(ops@)[m] == ops@[m].model());
            let plan = copy_plan(root@, source@, kind, items@)->0;
            assert(plan == copy_models(ops@));
            assert(built_below(root@, plan[m].1));
        }
    }
    assert(ops@[0].model() == copy_models(ops@)[0]);
    assert forall|j: int| 0 <= j < items@.len() implies (#[trigger] ops@[j + 1]).model() == mirror_item(
        source@,
        ops@[0].to@,
        items@[j],
    ) by {
        assert(ops@[j + 1].model() == copy_models(ops@)[j + 1]);
        assert(copy_models(ops@)[j + 1] == mirrored[j]);
    }
    Ok(ops)
}

} // verus!
