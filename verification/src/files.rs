//! Filtering the file list by a set of selected tags, either
//! intersectively (a file must carry every selected tag) or as a union
//! (any selected tag is enough).

use vstd::prelude::*;

use crate::types::FileInfo;

verus! {

/// The attachment relation holds a `(file id, tag id)` pair.
pub open spec fn has_pair(pairs: Seq<(u32, u32)>, fid: u32, tid: u32) -> bool {
    exists|k: int| 0 <= k < pairs.len() && pairs[k] == (fid, tid)
}

/// A file passes the tag filter: with nothing selected every file passes;
/// intersective filtering asks for every selected tag, union filtering for
/// any of them.
pub open spec fn matches_tag_filter(
    pairs: Seq<(u32, u32)>,
    sel: Seq<u32>,
    fid: u32,
    use_and: bool,
) -> bool {
    if sel.len() == 0 {
        true
    } else if use_and {
        forall|t: int| 0 <= t < sel.len() ==> has_pair(pairs, fid, #[trigger] sel[t])
    } else {
        exists|t: int| 0 <= t < sel.len() && has_pair(pairs, fid, #[trigger] sel[t])
    }
}

/// Whether the attachment list holds the pair.
fn pair_present(pairs: &Vec<(u32, u32)>, fid: u32, tid: u32) -> (r: bool)
    ensures
        r == has_pair(pairs@, fid, tid),
{
    let mut k: usize = 0;
    while k < pairs.len()
        invariant
            0 <= k <= pairs@.len(),
            forall|x: int| 0 <= x < k ==> pairs@[x] != (fid, tid),
        decreases pairs@.len() - k,
    {
        if pairs[k].0 == fid && pairs[k].1 == tid {
            proof {
                assert(pairs@[k as int] == (fid, tid));
            }
            return true;
        }
        k = k + 1;
    }
    false
}

/// Whether one file passes the tag filter.
fn file_matches(pairs: &Vec<(u32, u32)>, sel: &Vec<u32>, fid: u32, use_and: bool) -> (r: bool)
    ensures
        r == matches_tag_filter(pairs@, sel@, fid, use_and),
{
    if sel.len() == 0 {
        return true;
    }
    if use_and {
        let mut t: usize = 0;
        while t < sel.len()
            invariant
                use_and,
                sel@.len() > 0,
                0 <= t <= sel@.len(),
                forall|x: int| 0 <= x < t ==> has_pair(pairs@, fid, #[trigger] sel@[x]),
            decreases sel@.len() - t,
        {
            if !pair_present(pairs, fid, sel[t]) {
                proof {
                    assert(!has_pair(pairs@, fid, sel@[t as int]));
                }
                return false;
            }
            t = t + 1;
        }
        true
    } else {
        let mut t: usize = 0;
        while t < sel.len()
            invariant
                !use_and,
                sel@.len() > 0,
                0 <= t <= sel@.len(),
                forall|x: int| 0 <= x < t ==> !has_pair(pairs@, fid, #[trigger] sel@[x]),
            decreases sel@.len() - t,
        {
            if pair_present(pairs, fid, sel[t]) {
                proof {
                    assert(has_pair(pairs@, fid, sel@[t as int]));
                }
                return true;
            }
            t = t + 1;
        }
        false
    }
}

/// Copies one file record, field for field.
fn copy_file(f: &FileInfo) -> (r: FileInfo)
    ensures
        r == *f,
{
    FileInfo {
        id: f.id,
        path: f.path.clone(),
        content_hash: f.content_hash.clone(),
        size_bytes: f.size_bytes,
        last_modified: f.last_modified,
        is_directory: f.is_directory,
    }
}

/// Returns the files passing the tag filter, in their given order: all of
/// them when nothing is selected, those carrying every selected tag under
/// intersective logic, those carrying any selected tag otherwise.
pub fn get_files_by_tags(
    files: &Vec<FileInfo>,
    file_tags: &Vec<(u32, u32)>,
    tag_ids: &Vec<u32>,
    use_and_logic: bool,
) -> (r: Vec<FileInfo>)
    ensures
        r@ == files@.filter(
            |f: FileInfo| matches_tag_filter(file_tags@, tag_ids@, f.id, use_and_logic),
        ),
{
    proof {
        reveal(Seq::filter);
    }
    let ghost pred = |f: FileInfo| matches_tag_filter(file_tags@, tag_ids@, f.id, use_and_logic);
    let mut r: Vec<FileInfo> = Vec::new();
    let mut i: usize = 0;
    proof {
        assert(files@.subrange(0, 0).filter(pred) =~= Seq::<FileInfo>::empty());
    }
    while i < files.len()
        invariant
            0 <= i <= files@.len(),
            pred == (|f: FileInfo| matches_tag_filter(file_tags@, tag_ids@, f.id, use_and_logic)),
            r@ == files@.subrange(0, i as int).filter(pred),
        decreases files@.len() - i,
    {
        proof {
            reveal(Seq::filter);
            assert(files@.subrange(0, i as int + 1).drop_last() =~= files@.subrange(0, i as int));
            assert(files@.subrange(0, i as int + 1).last() == files@[i as int]);
        }
        if file_matches(file_tags, tag_ids, files[i].id, use_and_logic) {
            r.push(copy_file(&files[i]));
        }
        i = i + 1;
    }
    proof {
        assert(files@.subrange(0, files@.len() as int) =~= files@);
    }
    r
}

} // verus!
