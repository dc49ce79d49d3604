use crate::error::InstallError;
use crate::paths::{join_component, sep_seq};
use vstd::prelude::*;

verus! {

/// The folder the application is kept in once installed.
pub const CANONICAL_FOLDER: &'static str = "Processing";

/// The top folder of the application archive, before it is renamed.
pub const ARCHIVE_FOLDER: &'static str = "processing-3.5.4";

/// The application executable.
pub const EXE_NAME: &'static str = "processing.exe";

pub open spec fn child(dir: Seq<char>, name: Seq<char>) -> Seq<char> {
    dir + sep_seq() + name
}

pub open spec fn canonical_dir(root: Seq<char>) -> Seq<char> {
    child(root, CANONICAL_FOLDER@)
}

pub open spec fn archive_dir(root: Seq<char>) -> Seq<char> {
    child(root, ARCHIVE_FOLDER@)
}

/// The folder the application is renamed to: `root\Processing`.
pub fn canonical_folder(root: &str) -> (r: String)
    ensures
        r@ == canonical_dir(root@),
{
    join_component(root, CANONICAL_FOLDER)
}

/// The folder the application archive extracts to: `root\processing-3.5.4`.
pub fn archive_folder(root: &str) -> (r: String)
    ensures
        r@ == archive_dir(root@),
{
    join_component(root, ARCHIVE_FOLDER)
}

/// The extracted folder is renamed only when it exists and the canonical
/// folder does not, so a second run leaves an earlier rename alone.
pub fn should_rename(extracted_exists: bool, canonical_exists: bool) -> (r: bool)
    ensures
        r == (extracted_exists && !canonical_exists),
{
    extracted_exists && !canonical_exists
}

/// The first candidate: the executable right in the canonical folder.
pub fn direct_candidate(root: &str) -> (r: String)
    ensures
        r@ == child(canonical_dir(root@), EXE_NAME@),
{
    let dir = canonical_folder(root);
    join_component(dir.as_str(), EXE_NAME)
}

/// The second kind of candidate: the executable in the subfolder `sub` of
/// the canonical folder.
pub fn nested_candidate(root: &str, sub: &str) -> (r: String)
    ensures
        r@ == child(child(canonical_dir(root@), sub@), EXE_NAME@),
{
    let dir = canonical_folder(root);
    let inner = join_component(dir.as_str(), sub);
    join_component(inner.as_str(), EXE_NAME)
}

/// The last candidate: the executable in the folder the archive extracted
/// to, when it was never renamed.
pub fn fallback_candidate(root: &str) -> (r: String)
    ensures
        r@ == child(archive_dir(root@), EXE_NAME@),
{
    let dir = archive_folder(root);
    join_component(dir.as_str(), EXE_NAME)
}

/// One immediate subfolder of the canonical folder, in listing order, and
/// whether the executable stands in it.
pub struct SubfolderProbe {
    pub name: String,
    pub has_exe: bool,
}

/// What is on disk for each candidate of the search.
pub struct LayoutProbe {
    /// `root\Processing\processing.exe` exists.
    pub direct_exists: bool,
    /// The subfolders of `root\Processing`, in listing order.
    pub subfolders: Vec<SubfolderProbe>,
    /// `root\processing-3.5.4\processing.exe` exists.
    pub fallback_exists: bool,
}

/// The index of the first subfolder that holds the executable.
pub open spec fn first_hit(subs: Seq<SubfolderProbe>) -> Option<int>
    decreases subs.len(),
{
    if subs.len() == 0 {
        None
    } else if subs[0].has_exe {
        Some(0)
    } else {
        match first_hit(subs.drop_first()) {
            Some(j) => Some(j + 1),
            None => None,
        }
    }
}

/// The executable found for a probe: the direct candidate, else the first
/// subfolder that holds it, else the fallback, else nothing.
pub open spec fn located(root: Seq<char>, p: LayoutProbe) -> Option<Seq<char>> {
    if p.direct_exists {
        Some(child(canonical_dir(root), EXE_NAME@))
    } else if first_hit(p.subfolders@) is Some {
        Some(child(child(canonical_dir(root), p.subfolders@[first_hit(p.subfolders@)->0].name@), EXE_NAME@))
    } else if p.fallback_exists {
        Some(child(archive_dir(root), EXE_NAME@))
    } else {
        None
    }
}

proof fn lemma_first_hit(subs: Seq<SubfolderProbe>)
    ensures
        first_hit(subs) matches Some(j) ==> 0 <= j < subs.len() && subs[j].has_exe && forall|m: int|
            0 <= m < j ==> !(#[trigger] subs[m]).has_exe,
        first_hit(subs) is None ==> forall|m: int| 0 <= m < subs.len() ==> !(#[trigger] subs[m]).has_exe,
    decreases subs.len(),
{
    if subs.len() > 0 {
        lemma_first_hit(subs.drop_first());
        assert forall|m: int| 1 <= m < subs.len() implies #[trigger] subs[m] == subs.drop_first()[m - 1] by {}
    }
}

/// Picks the executable from what is on disk, trying the candidates in
/// their fixed order; the first one present wins.
pub fn select_executable(root: &str, probe: &LayoutProbe) -> (r: Result<String, InstallError>)
    ensures
        r is Ok <==> located(root@, *probe) is Some,
        r matches Ok(p) ==> located(root@, *probe) == Some(p@),
        r matches Err(e) ==> e is NotFound,
        !probe.direct_exists && probe.fallback_exists && (forall|m: int|
            0 <= m < probe.subfolders@.len() ==> !(#[trigger] probe.subfolders@[m]).has_exe) ==> (r matches Ok(
            p,
        ) && p@ == child(archive_dir(root@), EXE_NAME@)),
{
    if probe.direct_exists {
        return Ok(direct_candidate(root));
    }
    proof {
        lemma_first_hit(probe.subfolders@);
    }
    let mut i: usize = 0;
    while i < probe.subfolders.len()
        invariant
            !probe.direct_exists,
            i <= probe.subfolders@.len(),
            forall|m: int| 0 <= m < i ==> !(#[trigger] probe.subfolders@[m]).has_exe,
            first_hit(probe.subfolders@) matches Some(j) ==> 0 <= j < probe.subfolders@.len()
                && probe.subfolders@[j].has_exe && forall|m: int|
                0 <= m < j ==> !(#[trigger] probe.subfolders@[m]).has_exe,
            first_hit(probe.subfolders@) is None ==> forall|m: int|
                0 <= m < probe.subfolders@.len() ==> !(#[trigger] probe.subfolders@[m]).has_exe,
        decreases probe.subfolders.len() - i,
    {
        if probe.subfolders[i].has_exe {
            let ghost j = first_hit(probe.subfolders@);
            assert(j == Some(i as int)) by {
                if j is None {
                } else if j->0 < i {
                } else if j->0 > i {
                    assert(!probe.subfolders@[i as int].has_exe);
                }
            }
            let sub = &probe.subfolders[i];
            let found = nested_candidate(root, sub.name.as_str());
            return Ok(found);
        }
        i = i + 1;
    }
    assert(first_hit(probe.subfolders@) is None) by {
        if first_hit(probe.subfolders@) is Some {
            let j = first_hit(probe.subfolders@)->0;
            assert(probe.subfolders@[j].has_exe);
        }
    }
    if probe.fallback_exists {
        Ok(fallback_candidate(root))
    } else {
        Err(InstallError::NotFound)
    }
}

/// Where a path written by an extraction stands after the canonical
/// rename: anything below the archive folder moves below the canonical
/// folder; every other path stays.
pub open spec fn moved(root: Seq<char>, p: Seq<char>) -> Seq<char> {
    let from = archive_dir(root);
    if p.len() > from.len() && p.subrange(0, from.len() as int) == from && p[from.len() as int] == '\\' {
        canonical_dir(root) + p.subrange(from.len() as int, p.len() as int)
    } else {
        p
    }
}

/// The rename and the search fit together: the executable extracted at the
/// top of the archive folder is, once renamed, the candidate found first
/// when present; one extracted into a subfolder `sub` is, once renamed, what
/// the search returns when `sub` is the first subfolder holding it and
/// nothing stands at the direct candidate.
pub proof fn lemma_renamed_executable_is_located(root: Seq<char>, sub: Seq<char>, probe: LayoutProbe)
    ensures
        probe.direct_exists ==> located(root, probe) == Some(moved(root, child(archive_dir(root), EXE_NAME@))),
        !probe.direct_exists && first_hit(probe.subfolders@) is Some && probe.subfolders@[first_hit(
            probe.subfolders@,
        )->0].name@ == sub ==> located(root, probe) == Some(moved(root, child(child(archive_dir(root), sub), EXE_NAME@))),
{
    let from = archive_dir(root);
    let p1 = child(from, EXE_NAME@);
    assert(p1.subrange(0, from.len() as int) =~= from);
    assert(p1[from.len() as int] == '\\');
    assert(canonical_dir(root) + p1.subrange(from.len() as int, p1.len() as int) =~= child(canonical_dir(root), EXE_NAME@));
    let p2 = child(child(from, sub), EXE_NAME@);
    assert(p2.subrange(0, from.len() as int) =~= from);
    assert(p2[from.len() as int] == '\\');
    assert(canonical_dir(root) + p2.subrange(from.len() as int, p2.len() as int) =~= child(
        child(canonical_dir(root), sub),
        EXE_NAME@,
    ));
}

} // verus!
