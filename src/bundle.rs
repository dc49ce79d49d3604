use crate::archive::{
    entry_op, lemma_normalized_plain, lemma_steps_idempotent, lemma_steps_write_only_below_root,
    normalized, op_models, plan_entries, plan_spec, safe_name, tree_after, ArchiveEntry, ExtractOp,
    OpModel, TreeModel,
};
use crate::paths::{join_all, lemma_join_prefix, strictly_below};
use crate::error::InstallError;
use crate::paths::{get_install_path, install_root, valid_install_name};
use vstd::prelude::*;

verus! {

#[verifier::external_type_specification]
#[verifier::external_body]
#[verifier::reject_recursive_types(R)]
pub struct ExZipArchive<R>(zip::ZipArchive<R>);

#[verifier::external_type_specification]
#[verifier::external_body]
#[verifier::reject_recursive_types(T)]
pub struct ExCursor<T>(std::io::Cursor<T>);

#[verifier::external_type_specification]
#[verifier::external_body]
pub struct ExZipError(zip::result::ZipError);

/// An archive held in memory.
pub type MemArchive = zip::ZipArchive<std::io::Cursor<Vec<u8>>>;

/// Name, directory flag, permission bits and content of one archive record;
/// the content is `None` when the record cannot be read to the end.
pub type RecordModel = (Seq<char>, bool, Option<u32>, Option<Seq<u8>>);

/// The archive reader opens these bytes as an archive.
pub uninterp spec fn zip_opens(bytes: Seq<u8>) -> bool;

/// The records that the archive reader finds in these bytes, in stored order.
pub uninterp spec fn zip_listing(bytes: Seq<u8>) -> Seq<RecordModel>;

/// The records an opened archive holds, in stored order.
pub uninterp spec fn archive_records(a: MemArchive) -> Seq<RecordModel>;

/// The reader opens the bytes and reads every record of them to the end.
pub open spec fn zip_readable(bytes: Seq<u8>) -> bool {
    &&& zip_opens(bytes)
    &&& forall|i: int| 0 <= i < zip_listing(bytes).len() ==> (#[trigger] zip_listing(bytes)[i]).3 is Some
}

/// An entry read from an archive carries the record's fields and content,
/// and the reader's own safety judgement accepts every `safe_name`.
pub open spec fn entry_read_from(e: ArchiveEntry, rec: RecordModel) -> bool {
    &&& e.name@ == rec.0
    &&& e.is_dir == rec.1
    &&& e.mode == rec.2
    &&& rec.3 == Some(e.data@)
    &&& safe_name(e.name@) ==> e.enclosed
}

/// Each entry was read from the record at its position.
pub open spec fn entries_read_from(es: Seq<ArchiveEntry>, recs: Seq<RecordModel>) -> bool {
    &&& es.len() == recs.len()
    &&& forall|i: int| 0 <= i < es.len() ==> entry_read_from(#[trigger] es[i], recs[i])
}

/// The step a readable record becomes under `root`, or `None` when its name
/// is not a `safe_name` or names `root` itself.
pub open spec fn record_op(root: Seq<char>, rec: RecordModel) -> Option<OpModel> {
    if !safe_name(rec.0) {
        None
    } else {
        let c = normalized(rec.0)->0;
        if c.len() == 0 {
            None
        } else {
            Some((join_all(root, c), rec.1, rec.2, rec.3->0))
        }
    }
}

/// The extraction steps for a listing, in stored order, skipped records
/// left out.
pub open spec fn listing_plan(root: Seq<char>, recs: Seq<RecordModel>) -> Seq<OpModel>
    decreases recs.len(),
{
    if recs.len() == 0 {
        Seq::empty()
    } else {
        listing_plan(root, recs.drop_last()) + match record_op(root, recs.last()) {
            Some(o) => seq![o],
            None => Seq::empty(),
        }
    }
}

proof fn lemma_entries_plan(root: Seq<char>, es: Seq<ArchiveEntry>, recs: Seq<RecordModel>)
    requires
        entries_read_from(es, recs),
    ensures
        plan_spec(root, es) == listing_plan(root, recs),
    decreases es.len(),
{
    if es.len() > 0 {
        assert(entries_read_from(es.drop_last(), recs.drop_last())) by {
            assert forall|i: int| 0 <= i < es.drop_last().len() implies entry_read_from(
                #[trigger] es.drop_last()[i],
                recs.drop_last()[i],
            ) by {
                assert(es.drop_last()[i] == es[i]);
                assert(entry_read_from(es[i], recs[i]));
            }
        }
        lemma_entries_plan(root, es.drop_last(), recs.drop_last());
        assert(entry_read_from(es[es.len() - 1], recs[recs.len() - 1]));
        assert(entry_op(root, es.last()) == record_op(root, recs.last()));
    }
}

/// Relies on zip::ZipArchive::new: it reads the central directory of the
/// bytes, and the archive it returns holds the records found there. What it
/// does depends on the bytes alone.
#[verifier::external_body]
fn open_archive(bytes: &[u8]) -> (r: Result<MemArchive, zip::result::ZipError>)
    ensures
        r is Ok <==> zip_opens(bytes@),
        r matches Ok(a) ==> archive_records(a) == zip_listing(bytes@),
{
    zip::ZipArchive::new(std::io::Cursor::new(bytes.to_vec()))
}

/// Relies on zip::ZipArchive::len: the number of records.
#[verifier::external_body]
fn archive_len(a: &MemArchive) -> (n: usize)
    ensures
        n == archive_records(*a).len(),
{
    a.len()
}

/// Relies on zip::ZipArchive::by_index and on the record it hands out:
/// `name`, `is_dir`, `enclosed_name` and `unix_mode` read the record's
/// metadata, and reading it to the end yields its decompressed content.
/// Reading does not change which records the archive holds.
/// Whether the record reads depends on the record alone. `enclosed_name`
/// refuses a name only for a NUL, a root or drive prefix, or a `..` that
/// climbs above the top, on the platform's own separators; a `safe_name`
/// has none of these whichever of `/` and `\\` separate.
#[verifier::external_body]
fn read_record(a: &mut MemArchive, i: usize) -> (r: Result<ArchiveEntry, zip::result::ZipError>)
    requires
        i < archive_records(*old(a)).len(),
    ensures
        archive_records(*final(a)) == archive_records(*old(a)),
        r is Ok <==> archive_records(*old(a))[i as int].3 is Some,
        r matches Ok(e) ==> entry_read_from(e, archive_records(*old(a))[i as int]),
{
    let mut f = a.by_index(i)?;
    let mut data = Vec::new();
    std::io::Read::read_to_end(&mut f, &mut data)?;
    let name = f.name().to_string();
    let enclosed = f.enclosed_name().is_some();
    Ok(ArchiveEntry { name, is_dir: f.is_dir(), enclosed, mode: f.unix_mode(), data })
}

/// Reads every record of an archive held in `bytes`, in stored order. It
/// succeeds exactly when the reader opens and reads the bytes; any failure
/// is `OpenFailed`.
pub fn read_bundle(bytes: &[u8]) -> (r: Result<Vec<ArchiveEntry>, InstallError>)
    ensures
        r is Ok <==> zip_readable(bytes@),
        r matches Ok(v) ==> entries_read_from(v@, zip_listing(bytes@)),
        r matches Err(e) ==> e is OpenFailed,
{
    let mut archive = match open_archive(bytes) {
        Ok(a) => a,
        Err(_) => return Err(InstallError::OpenFailed),
    };
    let n = archive_len(&archive);
    let ghost records = archive_records(archive);
    let mut out: Vec<ArchiveEntry> = Vec::new();
    let mut i: usize = 0;
    while i < n
        invariant
            n == records.len(),
            records == zip_listing(bytes@),
            archive_records(archive) == records,
            zip_opens(bytes@),
            i <= n,
            forall|j: int| 0 <= j < i ==> (#[trigger] records[j]).3 is Some,
            out@.len() == i,
            forall|j: int| 0 <= j < i ==> entry_read_from(#[trigger] out@[j], records[j]),
        decreases n - i,
    {
        match read_record(&mut archive, i) {
            Ok(e) => out.push(e),
            Err(_) => {
                assert(records[i as int].3 is None);
                return Err(InstallError::OpenFailed);
            },
        }
        i = i + 1;
    }
    Ok(out)
}

/// Plans the extraction of an archive into `root`: the archive is read, and
/// each record becomes one step, in stored order, except those whose name is
/// unsafe or would land outside `root`, which are skipped. It succeeds
/// exactly when the reader opens and reads the bytes.
pub fn plan_extraction(bytes: &[u8], root: &str) -> (r: Result<Vec<ExtractOp>, InstallError>)
    ensures
        r is Ok <==> zip_readable(bytes@),
        r matches Ok(ops) ==> op_models(ops@) == listing_plan(root@, zip_listing(bytes@)),
        r matches Err(e) ==> e is OpenFailed,
{
    let entries = read_bundle(bytes)?;
    let ops = plan_entries(root, &entries);
    proof {
        lemma_entries_plan(root@, entries@, zip_listing(bytes@));
    }
    Ok(ops)
}

/// Plans the extraction of a bundle into the installation root of
/// `folder_name`: `InvalidName` for a name that is refused, `OpenFailed` for
/// an unreadable archive, else the steps of `plan_extraction` for that root.
pub fn plan_install_bundle(folder_name: &str, bytes: &[u8]) -> (r: Result<Vec<ExtractOp>, InstallError>)
    ensures
        !valid_install_name(folder_name@) ==> (r matches Err(e) && e is InvalidName),
        valid_install_name(folder_name@) ==> (r matches Err(e) ==> e is OpenFailed),
        valid_install_name(folder_name@) ==> (r is Ok <==> zip_readable(bytes@)),
        r matches Ok(ops) ==> op_models(ops@) == listing_plan(install_root(folder_name@), zip_listing(bytes@)),
{
    let root = get_install_path(folder_name)?;
    plan_extraction(bytes, root.as_str())
}

proof fn lemma_listing_concat(root: Seq<char>, a: Seq<RecordModel>, b: Seq<RecordModel>)
    ensures
        listing_plan(root, a + b) == listing_plan(root, a) + listing_plan(root, b),
    decreases b.len(),
{
    if b.len() == 0 {
        assert(a + b =~= a);
        assert(listing_plan(root, a) + listing_plan(root, b) =~= listing_plan(root, a));
    } else {
        lemma_listing_concat(root, a, b.drop_last());
        assert((a + b).drop_last() =~= a + b.drop_last());
        assert((a + b).last() == b.last());
        let tail = match record_op(root, b.last()) {
            Some(o) => seq![o],
            None => Seq::<OpModel>::empty(),
        };
        assert(listing_plan(root, a) + listing_plan(root, b.drop_last()) + tail =~= listing_plan(root, a)
            + (listing_plan(root, b.drop_last()) + tail));
    }
}

/// A record whose name would leave the root is skipped, not fatal: the plan
/// of a listing is the plan of the records before it followed by the plan
/// of the records after it.
pub proof fn lemma_unsafe_record_skipped(root: Seq<char>, recs: Seq<RecordModel>, k: int)
    requires
        0 <= k < recs.len(),
        !safe_name(recs[k].0),
    ensures
        listing_plan(root, recs) == listing_plan(root, recs.take(k)) + listing_plan(root, recs.skip(k + 1)),
{
    let one = seq![recs[k]];
    assert(recs =~= recs.take(k) + one + recs.skip(k + 1));
    lemma_listing_concat(root, recs.take(k) + one, recs.skip(k + 1));
    lemma_listing_concat(root, recs.take(k), one);
    assert(one.drop_last() =~= Seq::<RecordModel>::empty());
    assert(listing_plan(root, one.drop_last()) == Seq::<OpModel>::empty());
    assert(one.last() == recs[k]);
    assert(record_op(root, one.last()) is None);
    assert(listing_plan(root, one) =~= Seq::<OpModel>::empty());
    assert(listing_plan(root, recs.take(k)) + listing_plan(root, one) =~= listing_plan(root, recs.take(k)));
}

/// Every step of a listing's plan targets a path strictly below `root`.
pub proof fn lemma_listing_below_root(root: Seq<char>, recs: Seq<RecordModel>)
    ensures
        forall|i: int|
            0 <= i < listing_plan(root, recs).len() ==> strictly_below(root, #[trigger] listing_plan(root, recs)[i].0),
    decreases recs.len(),
{
    if recs.len() > 0 {
        lemma_listing_below_root(root, recs.drop_last());
        let prev = listing_plan(root, recs.drop_last());
        let rec = recs.last();
        let tail = match record_op(root, rec) {
            Some(o) => seq![o],
            None => Seq::<OpModel>::empty(),
        };
        assert(listing_plan(root, recs) == prev + tail);
        lemma_normalized_plain(rec.0);
        assert forall|i: int| 0 <= i < listing_plan(root, recs).len() implies strictly_below(
            root,
            #[trigger] listing_plan(root, recs)[i].0,
        ) by {
            if i < prev.len() {
                assert(listing_plan(root, recs)[i] == prev[i]);
            } else {
                let c = normalized(rec.0)->0;
                assert(listing_plan(root, recs)[i] == tail[0]);
                assert forall|j: int| 0 <= j < c.len() implies #[trigger] c[j].len() > 0 by {}
                lemma_join_prefix(root, c);
            }
        }
    }
}

/// Path safety of extracting a bundle: whatever the starting tree, every
/// path that is not strictly below `root` is as it was.
pub proof fn lemma_bundle_writes_only_below_root(root: Seq<char>, bytes: Seq<u8>, t: TreeModel, k: Seq<char>)
    requires
        !strictly_below(root, k),
    ensures
        tree_after(root, listing_plan(root, zip_listing(bytes)), t).get(k) == t.get(k),
{
    lemma_listing_below_root(root, zip_listing(bytes));
    lemma_steps_write_only_below_root(root, listing_plan(root, zip_listing(bytes)), t, k);
}

/// Extracting the same bundle twice gives the tree that extracting it once
/// gives; and a bundle planned once is planned again (`plan_extraction` is
/// `Ok` exactly when the bytes read, with the same steps).
pub proof fn lemma_bundle_rerun_idempotent(root: Seq<char>, bytes: Seq<u8>, t: TreeModel)
    ensures
        tree_after(
            root,
            listing_plan(root, zip_listing(bytes)),
            tree_after(root, listing_plan(root, zip_listing(bytes)), t),
        ) == tree_after(root, listing_plan(root, zip_listing(bytes)), t),
{
    lemma_steps_idempotent(root, listing_plan(root, zip_listing(bytes)), t);
}

} // verus!
