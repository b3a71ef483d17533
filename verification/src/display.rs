//! The rendered file list: merging scan results with database records and
//! sorting the rows by a chosen column.

use vstd::prelude::*;

use crate::types::{DisplayFile, FileInfo, FileListItem, SortColumn, SortDirection, TagInfo};
use vstd::string::StrSliceExecFns;

verus! {

/// What `str::to_lowercase` returns for the given characters.
pub uninterp spec fn lower_of(s: Seq<char>) -> Seq<char>;

/// Relies on str::to_lowercase: the result depends on the characters alone.
#[verifier::external_body]
fn lowercase(s: &str) -> (r: String)
    ensures
        r@ == lower_of(s@),
{
    s.to_lowercase()
}

/// Lexicographic order on character sequences by code point, the order
/// `str` comparison uses.
pub open spec fn lex_le(a: Seq<char>, b: Seq<char>) -> bool
    decreases a.len(),
{
    if a.len() == 0 {
        true
    } else if b.len() == 0 {
        false
    } else if a[0] != b[0] {
        (a[0] as u32) < (b[0] as u32)
    } else {
        lex_le(a.skip(1), b.skip(1))
    }
}

/// Any two character sequences compare one way or the other.
pub proof fn lemma_lex_le_total(a: Seq<char>, b: Seq<char>)
    ensures
        lex_le(a, b) || lex_le(b, a),
    decreases a.len(),
{
    if a.len() != 0 && b.len() != 0 {
        if a[0] == b[0] {
            lemma_lex_le_total(a.skip(1), b.skip(1));
        } else {
            vstd::utf8::char_u32_cast(a[0], a[0] as u32);
            vstd::utf8::char_u32_cast(b[0], b[0] as u32);
            assert((a[0] as u32) != (b[0] as u32));
        }
    }
}

/// Lexicographic order is transitive.
pub proof fn lemma_lex_le_trans(a: Seq<char>, b: Seq<char>, c: Seq<char>)
    requires
        lex_le(a, b),
        lex_le(b, c),
    ensures
        lex_le(a, c),
    decreases a.len(),
{
    if a.len() != 0 && b.len() != 0 && c.len() != 0 && a[0] == b[0] && b[0] == c[0] {
        lemma_lex_le_trans(a.skip(1), b.skip(1), c.skip(1));
    }
}

/// Sequences that agree on a prefix compare as their remainders do.
proof fn lemma_lex_le_skip(a: Seq<char>, b: Seq<char>, i: int)
    requires
        0 <= i <= a.len(),
        i <= b.len(),
        forall|k: int| 0 <= k < i ==> a[k] == b[k],
    ensures
        lex_le(a, b) == lex_le(a.skip(i), b.skip(i)),
    decreases i,
{
    if i == 0 {
        assert(a.skip(0) =~= a);
        assert(b.skip(0) =~= b);
    } else {
        assert(a[0] == b[0]);
        assert forall|k: int| 0 <= k < i - 1 implies a.skip(1)[k] == b.skip(1)[k] by {
            assert(a.skip(1)[k] == a[k + 1]);
            assert(b.skip(1)[k] == b[k + 1]);
        }
        lemma_lex_le_skip(a.skip(1), b.skip(1), i - 1);
        assert(a.skip(1).skip(i - 1) =~= a.skip(i));
        assert(b.skip(1).skip(i - 1) =~= b.skip(i));
    }
}

/// Compares two strings lexicographically by code point.
fn str_le(a: &str, b: &str) -> (r: bool)
    ensures
        r == lex_le(a@, b@),
{
    let la = a.unicode_len();
    let lb = b.unicode_len();
    let mut i: usize = 0;
    while i < la && i < lb
        invariant
            0 <= i <= la,
            i <= lb,
            la == a@.len(),
            lb == b@.len(),
            forall|k: int| 0 <= k < i ==> a@[k] == b@[k],
        decreases la - i,
    {
        let ca = a.get_char(i);
        let cb = b.get_char(i);
        if ca != cb {
            proof {
                lemma_lex_le_skip(a@, b@, i as int);
                assert(a@.skip(i as int)[0] == a@[i as int]);
                assert(b@.skip(i as int)[0] == b@[i as int]);
            }
            return (ca as u32) < (cb as u32);
        }
        i = i + 1;
    }
    proof {
        lemma_lex_le_skip(a@, b@, i as int);
        if i == la {
            assert(a@.skip(i as int).len() == 0);
        } else {
            assert(b@.skip(i as int).len() == 0);
            assert(a@.skip(i as int).len() > 0);
        }
    }
    la <= lb
}

/// What `Path::file_name` yields for the given path characters, as a
/// string (the empty string when the path has no final component).
pub uninterp spec fn file_name_of(path: Seq<char>) -> Seq<char>;

/// What `Path::extension` yields for the given path characters, as a
/// string (the empty string when the final component has no extension).
pub uninterp spec fn extension_of(path: Seq<char>) -> Seq<char>;

/// Relies on std::path::Path::file_name: the final component of a path
/// depends on the path's characters alone; a path without one (such as
/// `".."`) yields the empty string.
#[verifier::external_body]
fn path_file_name(path: &str) -> (r: String)
    ensures
        r@ == file_name_of(path@),
{
    std::path::Path::new(path).file_name().unwrap_or_default().to_string_lossy().to_string()
}

/// Relies on std::path::Path::extension: the part of the final component
/// after its last dot depends on the path's characters alone; a path
/// without an extension yields the empty string.
#[verifier::external_body]
fn path_extension(path: &str) -> (r: String)
    ensures
        r@ == extension_of(path@),
{
    std::path::Path::new(path).extension().unwrap_or_default().to_string_lossy().to_string()
}

/// Copies one tag record, field for field.
fn copy_tag(t: &TagInfo) -> (r: TagInfo)
    ensures
        r == *t,
{
    TagInfo {
        id: t.id,
        name: t.name.clone(),
        parent_id: t.parent_id,
        color: match &t.color {
            Some(c) => Some(c.clone()),
            None => None,
        },
        position: t.position,
    }
}

/// Copies a list of tag records.
fn copy_tags(v: &Vec<TagInfo>) -> (r: Vec<TagInfo>)
    ensures
        r@ == v@,
{
    let mut r: Vec<TagInfo> = Vec::new();
    let mut i: usize = 0;
    while i < v.len()
        invariant
            0 <= i <= v@.len(),
            r@ == v@.subrange(0, i as int),
        decreases v@.len() - i,
    {
        r.push(copy_tag(&v[i]));
        proof {
            assert(r@ =~= v@.subrange(0, i as int + 1));
        }
        i = i + 1;
    }
    proof {
        assert(v@.subrange(0, v@.len() as int) =~= v@);
    }
    r
}

/// No database record carries this scanned path.
pub open spec fn is_new_path(db: Seq<FileInfo>, it: FileListItem) -> bool {
    forall|j: int| 0 <= j < db.len() ==> (#[trigger] db[j]).path@ != it.path@
}

/// Whether some database record carries this path.
fn path_in_db(db: &Vec<FileInfo>, path: &String) -> (r: bool)
    ensures
        r == exists|j: int| 0 <= j < db@.len() && (#[trigger] db@[j]).path@ == path@,
{
    let mut j: usize = 0;
    while j < db.len()
        invariant
            0 <= j <= db@.len(),
            forall|k: int| 0 <= k < j ==> (#[trigger] db@[k]).path@ != path@,
        decreases db@.len() - j,
    {
        if db[j].path == *path {
            return true;
        }
        j = j + 1;
    }
    false
}

/// A rendered row built from a database record: the name and extension are
/// split out of the path, and the record's tags are attached (none when
/// the map has no entry for it).
pub open spec fn db_row_matches(d: DisplayFile, f: FileInfo, m: Map<u32, Vec<TagInfo>>) -> bool {
    &&& d.path == f.path
    &&& d.name@ == file_name_of(f.path@)
    &&& d.extension@ == extension_of(f.path@)
    &&& d.size_bytes == f.size_bytes
    &&& d.last_modified == f.last_modified
    &&& d.db_id == Some(f.id)
    &&& d.is_directory == f.is_directory
    &&& if m.dom().contains(f.id) {
        d.tags@ == m[f.id]@
    } else {
        d.tags@ == Seq::<TagInfo>::empty()
    }
}

/// A rendered row built from a scan entry: not yet in the database, so it
/// carries no id and no tags.
pub open spec fn scan_row_matches(d: DisplayFile, it: FileListItem) -> bool {
    &&& d.path == it.path
    &&& d.name@ == file_name_of(it.path@)
    &&& d.extension@ == extension_of(it.path@)
    &&& d.size_bytes == it.size_bytes
    &&& d.last_modified == it.last_modified
    &&& d.db_id is None
    &&& d.tags@ == Seq::<TagInfo>::empty()
    &&& d.is_directory == it.is_directory
}

/// Builds the rows of the file list: every database record first, each
/// with its tags, then — only when no tag filter is active — the scanned
/// entries whose paths the database does not know yet, in scan order.
pub fn build_display_files(
    scanned: &Vec<FileListItem>,
    db: &Vec<FileInfo>,
    tags_map: &std::collections::HashMap<u32, Vec<TagInfo>>,
    selected_tag_ids: &Vec<u32>,
) -> (r: Vec<DisplayFile>)
    ensures
        r@.len() >= db@.len(),
        forall|i: int| 0 <= i < db@.len() ==> db_row_matches(#[trigger] r@[i], db@[i], tags_map@),
        selected_tag_ids@.len() > 0 ==> r@.len() == db@.len(),
        selected_tag_ids@.len() == 0 ==> {
            let kept = scanned@.filter(|it: FileListItem| is_new_path(db@, it));
            &&& r@.len() == db@.len() + kept.len()
            &&& forall|t: int|
                0 <= t < kept.len() ==> scan_row_matches(#[trigger] r@[db@.len() + t], kept[t])
        },
{
    let mut r: Vec<DisplayFile> = Vec::new();
    let mut i: usize = 0;
    while i < db.len()
        invariant
            0 <= i <= db@.len(),
            r@.len() == i,
            forall|k: int| 0 <= k < i ==> db_row_matches(#[trigger] r@[k], db@[k], tags_map@),
        decreases db@.len() - i,
    {
        let name = path_file_name(db[i].path.as_str());
        let extension = path_extension(db[i].path.as_str());
        let tags: Vec<TagInfo> = match tags_map.get(&db[i].id) {
            Some(v) => copy_tags(v),
            None => Vec::new(),
        };
        let ghost rold = r@;
        r.push(
            DisplayFile {
                path: db[i].path.clone(),
                name,
                extension,
                size_bytes: db[i].size_bytes,
                last_modified: db[i].last_modified,
                db_id: Some(db[i].id),
                tags,
                is_directory: db[i].is_directory,
            },
        );
        proof {
            assert(forall|k: int| 0 <= k < i ==> r@[k] == rold[k]);
            assert(db_row_matches(r@[i as int], db@[i as int], tags_map@));
        }
        i = i + 1;
    }
    if selected_tag_ids.len() == 0 {
        proof {
            reveal(Seq::filter);
            assert(scanned@.subrange(0, 0).filter(|it: FileListItem| is_new_path(db@, it))
                =~= Seq::<FileListItem>::empty());
        }
        let ghost pred = |it: FileListItem| is_new_path(db@, it);
        let mut t: usize = 0;
        while t < scanned.len()
            invariant
                0 <= t <= scanned@.len(),
                pred == (|it: FileListItem| is_new_path(db@, it)),
                r@.len() == db@.len() + scanned@.subrange(0, t as int).filter(pred).len(),
                forall|k: int|
                    0 <= k < db@.len() ==> db_row_matches(#[trigger] r@[k], db@[k], tags_map@),
                forall|x: int|
                    0 <= x < scanned@.subrange(0, t as int).filter(pred).len()
                        ==> scan_row_matches(
                        #[trigger] r@[db@.len() + x],
                        scanned@.subrange(0, t as int).filter(pred)[x],
                    ),
            decreases scanned@.len() - t,
        {
            proof {
                reveal(Seq::filter);
                assert(scanned@.subrange(0, t as int + 1).drop_last() =~= scanned@.subrange(
                    0,
                    t as int,
                ));
                assert(scanned@.subrange(0, t as int + 1).last() == scanned@[t as int]);
            }
            let fresh = !path_in_db(db, &scanned[t].path);
            if fresh {
                let name = path_file_name(scanned[t].path.as_str());
                let extension = path_extension(scanned[t].path.as_str());
                let ghost rold = r@;
                r.push(
                    DisplayFile {
                        path: scanned[t].path.clone(),
                        name,
                        extension,
                        size_bytes: scanned[t].size_bytes,
                        last_modified: scanned[t].last_modified,
                        db_id: None,
                        tags: Vec::new(),
                        is_directory: scanned[t].is_directory,
                    },
                );
                proof {
                    assert(forall|k: int| 0 <= k < rold.len() ==> r@[k] == rold[k]);
                    assert(scan_row_matches(r@[r@.len() - 1], scanned@[t as int]));
                }
            }
            t = t + 1;
        }
        proof {
            assert(scanned@.subrange(0, scanned@.len() as int) =~= scanned@);
        }
    }
    r
}

/// Ascending order of two rows under one column: names and extensions
/// compare case-insensitively, sizes and dates numerically.
pub open spec fn column_le(col: SortColumn, a: DisplayFile, b: DisplayFile) -> bool {
    match col {
        SortColumn::Name => lex_le(lower_of(a.name@), lower_of(b.name@)),
        SortColumn::Size => a.size_bytes <= b.size_bytes,
        SortColumn::Date => a.last_modified <= b.last_modified,
        SortColumn::Type => lex_le(lower_of(a.extension@), lower_of(b.extension@)),
    }
}

/// The sort order of the file list: the column's order, reversed for a
/// descending sort.
pub open spec fn file_le(col: SortColumn, dir: SortDirection, a: DisplayFile, b: DisplayFile) -> bool {
    match dir {
        SortDirection::Asc => column_le(col, a, b),
        SortDirection::Desc => column_le(col, b, a),
    }
}

/// The sort order relates any two rows.
pub proof fn lemma_file_le_total(col: SortColumn, dir: SortDirection, a: DisplayFile, b: DisplayFile)
    ensures
        file_le(col, dir, a, b) || file_le(col, dir, b, a),
{
    match col {
        SortColumn::Name => {
            lemma_lex_le_total(lower_of(a.name@), lower_of(b.name@));
        },
        SortColumn::Type => {
            lemma_lex_le_total(lower_of(a.extension@), lower_of(b.extension@));
        },
        _ => {},
    }
}

/// The sort order is transitive.
pub proof fn lemma_file_le_trans(
    col: SortColumn,
    dir: SortDirection,
    a: DisplayFile,
    b: DisplayFile,
    c: DisplayFile,
)
    requires
        file_le(col, dir, a, b),
        file_le(col, dir, b, c),
    ensures
        file_le(col, dir, a, c),
{
    match (col, dir) {
        (SortColumn::Name, SortDirection::Asc) => {
            lemma_lex_le_trans(lower_of(a.name@), lower_of(b.name@), lower_of(c.name@));
        },
        (SortColumn::Name, SortDirection::Desc) => {
            lemma_lex_le_trans(lower_of(c.name@), lower_of(b.name@), lower_of(a.name@));
        },
        (SortColumn::Type, SortDirection::Asc) => {
            lemma_lex_le_trans(
                lower_of(a.extension@),
                lower_of(b.extension@),
                lower_of(c.extension@),
            );
        },
        (SortColumn::Type, SortDirection::Desc) => {
            lemma_lex_le_trans(
                lower_of(c.extension@),
                lower_of(b.extension@),
                lower_of(a.extension@),
            );
        },
        _ => {},
    }
}

/// Compares two rows under the chosen column and direction.
fn file_le_exec(a: &DisplayFile, b: &DisplayFile, col: SortColumn, dir: SortDirection) -> (r: bool)
    ensures
        r == file_le(col, dir, *a, *b),
{
    let (x, y) = match dir {
        SortDirection::Asc => (a, b),
        SortDirection::Desc => (b, a),
    };
    match col {
        SortColumn::Name => {
            let lx = lowercase(x.name.as_str());
            let ly = lowercase(y.name.as_str());
            str_le(lx.as_str(), ly.as_str())
        },
        SortColumn::Size => x.size_bytes <= y.size_bytes,
        SortColumn::Date => x.last_modified <= y.last_modified,
        SortColumn::Type => {
            let lx = lowercase(x.extension.as_str());
            let ly = lowercase(y.extension.as_str());
            str_le(lx.as_str(), ly.as_str())
        },
    }
}

/// Swaps two neighboring rows.
fn swap_adjacent(v: &mut Vec<DisplayFile>, j: usize)
    requires
        1 <= j < old(v)@.len(),
    ensures
        final(v)@ == old(v)@.update(j - 1, old(v)@[j as int]).update(j as int, old(v)@[j - 1]),
        final(v)@.to_multiset() == old(v)@.to_multiset(),
{
    let ghost s0 = v@;
    let x = v.remove(j);
    let ghost s1 = v@;
    v.insert(j - 1, x);
    proof {
        assert(v@ =~= s0.update(j - 1, s0[j as int]).update(j as int, s0[j - 1]));
        broadcast use vstd::seq_lib::group_to_multiset_ensures;
        broadcast use vstd::seq_lib::to_multiset_insert;

        assert(s1.to_multiset() =~= s0.to_multiset().remove(s0[j as int]));
        assert(v@.to_multiset() =~= s1.to_multiset().insert(s0[j as int]));
        assert(s0.contains(s0[j as int]));
        assert(s0.to_multiset().count(s0[j as int]) > 0);
        assert(v@.to_multiset() =~= s0.to_multiset());
    }
}

/// Sorts the file list by the chosen column and direction: the result holds
/// the same rows, ordered by [`file_le`].
pub fn sort_display_files(
    display_files: Vec<DisplayFile>,
    col: SortColumn,
    dir: SortDirection,
) -> (r: Vec<DisplayFile>)
    ensures
        r@.len() == display_files@.len(),
        r@.to_multiset() == display_files@.to_multiset(),
        forall|x: int, y: int|
            0 <= x < y < r@.len() ==> file_le(col, dir, #[trigger] r@[x], #[trigger] r@[y]),
{
    let ghost s0 = display_files@;
    let mut v = display_files;
    if v.len() <= 1 {
        return v;
    }
    let mut i: usize = 1;
    while i < v.len()
        invariant
            1 <= i <= v@.len(),
            v@.len() == s0.len(),
            v@.to_multiset() == s0.to_multiset(),
            forall|x: int, y: int|
                0 <= x < y < i ==> file_le(col, dir, #[trigger] v@[x], #[trigger] v@[y]),
        decreases v@.len() - i,
    {
        let mut j: usize = i;
        while j > 0
            invariant
                0 <= j <= i < v@.len(),
                v@.len() == s0.len(),
                v@.to_multiset() == s0.to_multiset(),
                forall|x: int, y: int|
                    0 <= x < y <= i && y != j ==> file_le(col, dir, #[trigger] v@[x], #[trigger] v@[y]),
                j < i ==> file_le(col, dir, v@[j as int], v@[j + 1]),
            ensures
                v@.len() == s0.len(),
                v@.to_multiset() == s0.to_multiset(),
                forall|x: int, y: int|
                    0 <= x < y <= i && y != j ==> file_le(col, dir, #[trigger] v@[x], #[trigger] v@[y]),
                j < i ==> file_le(col, dir, v@[j as int], v@[j + 1]),
                j == 0 || file_le(col, dir, v@[j - 1], v@[j as int]),
            decreases j,
        {
            let stay = file_le_exec(&v[j - 1], &v[j], col, dir);
            if stay {
                break ;
            }
            proof {
                lemma_file_le_total(col, dir, v@[j - 1], v@[j as int]);
            }
            let ghost before = v@;
            swap_adjacent(&mut v, j);
            proof {
                assert forall|x: int, y: int|
                    0 <= x < y <= i && y != j - 1 implies file_le(
                    col,
                    dir,
                    #[trigger] v@[x],
                    #[trigger] v@[y],
                ) by {
                    if y == j {
                        if x < j - 1 {
                            assert(before[x] == v@[x]);
                            assert(v@[y] == before[j - 1]);
                            assert(file_le(col, dir, before[x], before[j - 1]));
                        } else {
                            assert(x == j - 1);
                            assert(v@[x] == before[j as int] && v@[y] == before[j - 1]);
                        }
                    } else if y > j {
                        if x == j - 1 {
                            assert(v@[x] == before[j as int]);
                            if y == j + 1 {
                                assert(file_le(col, dir, before[j as int], before[j + 1]));
                            } else {
                                assert(file_le(col, dir, before[j as int], before[j + 1]));
                                assert(file_le(col, dir, before[j + 1], before[y]));
                                lemma_file_le_trans(
                                    col,
                                    dir,
                                    before[j as int],
                                    before[j + 1],
                                    before[y],
                                );
                            }
                        } else if x == j {
                            assert(v@[x] == before[j - 1]);
                            assert(file_le(col, dir, before[j - 1], before[y]));
                        } else {
                            assert(v@[x] == before[x] && v@[y] == before[y]);
                        }
                    } else {
                        assert(v@[x] == before[x] && v@[y] == before[y]);
                    }
                }
            }
            j = j - 1;
        }
        proof {
            assert forall|x: int, y: int|
                0 <= x < y <= i implies file_le(col, dir, #[trigger] v@[x], #[trigger] v@[y]) by {
                if y == j && j > 0 {
                    assert(file_le(col, dir, v@[j - 1], v@[j as int]));
                    if x < j - 1 {
                        assert(file_le(col, dir, v@[x], v@[j - 1]));
                        lemma_file_le_trans(col, dir, v@[x], v@[j - 1], v@[j as int]);
                    }
                }
            }
        }
        i = i + 1;
    }
    v
}

} // verus!