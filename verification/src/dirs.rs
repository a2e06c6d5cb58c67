//! The directory-size aggregator: replays a terminal session
//! transcript into a table of directory records, computes recursive
//! directory sizes, and answers the two threshold queries.

use vstd::prelude::*;
use crate::bytes::{spec_parse_num, spec_split, split_bytes, parse_num_limited};

verus! {

#[derive(Debug, Clone, Copy, PartialEq, Eq, Structural)]
pub enum DirError {
    /// A listing line is neither a subdirectory entry nor a
    /// well-formed file entry.
    MalformedLine,
    /// A parent-navigation command was issued at the root.
    RootEscape,
    /// A referenced directory has no record.
    MissingDir,
    /// No directory is large enough for the freeing query.
    NoCandidate,
    /// A size total exceeds the 64-bit range.
    Overflow,
}

/// One directory's record: its path, the total size of the files it
/// holds directly, and its direct subdirectories' paths.
#[derive(Debug)]
pub struct Folder {
    pub path: Vec<Vec<u8>>,
    pub files_size: u64,
    pub subfolders: Vec<Vec<Vec<u8>>>,
}

/// The mathematical view of one record.
#[verifier::ext_equal]
pub struct FolderModel {
    pub path: Seq<Seq<u8>>,
    pub files_size: nat,
    pub subfolders: Seq<Seq<Seq<u8>>>,
}

impl Folder {
    pub open spec fn model(self) -> FolderModel {
        FolderModel {
            path: self.path.deep_view(),
            files_size: self.files_size as nat,
            subfolders: self.subfolders.deep_view(),
        }
    }
}

/// The table of all directory records.
#[derive(Debug)]
pub struct DirTable {
    pub records: Vec<Folder>,
}

impl DirTable {
    pub open spec fn model(self) -> Seq<FolderModel> {
        self.records@.map_values(|f: Folder| f.model())
    }
}

pub open spec fn has_dir(t: Seq<FolderModel>, p: Seq<Seq<u8>>) -> bool {
    exists|i: int| 0 <= i < t.len() && t[i].path == p
}

pub open spec fn dir_idx(t: Seq<FolderModel>, p: Seq<Seq<u8>>) -> int {
    choose|i: int| 0 <= i < t.len() && t[i].path == p
}

pub open spec fn dir_at(t: Seq<FolderModel>, p: Seq<Seq<u8>>) -> FolderModel {
    t[dir_idx(t, p)]
}

/// The longest path length over all records.
pub open spec fn max_path_len(t: Seq<FolderModel>) -> nat
    decreases t.len(),
{
    if t.len() == 0 {
        0
    } else {
        let m = max_path_len(t.drop_last());
        if t.last().path.len() > m {
            t.last().path.len()
        } else {
            m
        }
    }
}

pub proof fn lemma_max_path_len(t: Seq<FolderModel>, i: int)
    requires
        0 <= i < t.len(),
    ensures
        t[i].path.len() <= max_path_len(t),
    decreases t.len(),
{
    if i < t.len() - 1 {
        lemma_max_path_len(t.drop_last(), i);
    }
}

/// Every subfolder reference extends its record's path by exactly
/// one segment; the implicit tree is therefore acyclic.
pub open spec fn extends_ok(t: Seq<FolderModel>) -> bool {
    forall|i: int, k: int|
        0 <= i < t.len() && 0 <= k < t[i].subfolders.len() ==> {
            &&& (#[trigger] t[i].subfolders[k]).len() == t[i].path.len() + 1
            &&& t[i].subfolders[k].take(t[i].path.len() as int) == t[i].path
        }
}

/// Each path has at most one record.
pub open spec fn paths_unique(t: Seq<FolderModel>) -> bool {
    forall|i: int, j: int|
        0 <= i < j < t.len() ==> (#[trigger] t[i]).path != (#[trigger] t[j]).path
}

pub open spec fn table_wf(t: Seq<FolderModel>) -> bool {
    extends_ok(t) && paths_unique(t)
}

/// The recursive total size of the directory at path `p`: its own
/// direct file total plus the recursive sizes of its subfolders.
/// `None` when `p`, or any directory reachable from it, has no
/// record.
pub open spec fn spec_dir_size(t: Seq<FolderModel>, p: Seq<Seq<u8>>) -> Option<nat>
    decreases max_path_len(t) + 1 - p.len(), 0int,
        when extends_ok(t) && p.len() <= max_path_len(t) + 1
{
    if !has_dir(t, p) {
        None
    } else {
        proof {
            lemma_max_path_len(t, dir_idx(t, p));
        }
        let f = dir_at(t, p);
        match spec_sum_subs(t, f.subfolders, (p.len() + 1) as nat) {
            Some(s) => Some(f.files_size + s),
            None => None,
        }
    }
}

/// The sum of the recursive sizes of the listed subfolder paths,
/// each of length `d`.
pub open spec fn spec_sum_subs(t: Seq<FolderModel>, subs: Seq<Seq<Seq<u8>>>, d: nat) -> Option<
    nat,
>
    decreases max_path_len(t) + 1 - d, subs.len(),
        when extends_ok(t) && d <= max_path_len(t) + 1 && (forall|k: int|
            0 <= k < subs.len() ==> (#[trigger] subs[k]).len() == d)
{
    if subs.len() == 0 {
        Some(0)
    } else {
        match (spec_sum_subs(t, subs.drop_last(), d), spec_dir_size(t, subs.last())) {
            (Some(b), Some(a)) => Some(a + b),
            _ => None,
        }
    }
}

/// Law: a directory's computed total size is at least its own direct
/// file-size total, since subdirectory sizes are non-negative.
pub proof fn lemma_size_at_least_files(t: Seq<FolderModel>, p: Seq<Seq<u8>>, n: nat)
    requires
        table_wf(t),
        p.len() <= max_path_len(t) + 1,
        spec_dir_size(t, p) == Some(n),
    ensures
        has_dir(t, p),
        n >= dir_at(t, p).files_size,
{
}

/// Every subfolder reference anywhere in the table has a record of
/// its own: the tree is complete.
pub open spec fn subfolders_present(t: Seq<FolderModel>) -> bool {
    forall|i: int, k: int|
        0 <= i < t.len() && 0 <= k < t[i].subfolders.len() ==> has_dir(
            t,
            #[trigger] t[i].subfolders[k],
        )
}

/// Law: in a well-formed, complete table every record's recursive
/// size is defined.
pub proof fn lemma_sizes_defined(t: Seq<FolderModel>, p: Seq<Seq<u8>>)
    requires
        table_wf(t),
        subfolders_present(t),
        has_dir(t, p),
    ensures
        spec_dir_size(t, p) is Some,
    decreases max_path_len(t) + 1 - p.len(), 0int,
{
    lemma_max_path_len(t, dir_idx(t, p));
    let f = dir_at(t, p);
    let i = dir_idx(t, p);
    assert forall|k: int| 0 <= k < f.subfolders.len() implies {
        &&& (#[trigger] f.subfolders[k]).len() == p.len() + 1
        &&& has_dir(t, f.subfolders[k])
    } by {
        assert(t[i].subfolders[k] == f.subfolders[k]);
    }
    lemma_sizes_defined_subs(t, f.subfolders, (p.len() + 1) as nat);
}

proof fn lemma_sizes_defined_subs(t: Seq<FolderModel>, subs: Seq<Seq<Seq<u8>>>, d: nat)
    requires
        table_wf(t),
        subfolders_present(t),
        d <= max_path_len(t) + 1,
        forall|k: int| 0 <= k < subs.len() ==> (#[trigger] subs[k]).len() == d,
        forall|k: int| 0 <= k < subs.len() ==> has_dir(t, #[trigger] subs[k]),
    ensures
        spec_sum_subs(t, subs, d) is Some,
    decreases max_path_len(t) + 1 - d, subs.len(),
{
    if subs.len() > 0 {
        lemma_sizes_defined_subs(t, subs.drop_last(), d);
        lemma_sizes_defined(t, subs.last());
    }
}

/// If one listed subfolder's size is undefined, the whole sum is.
proof fn lemma_sum_none(t: Seq<FolderModel>, subs: Seq<Seq<Seq<u8>>>, d: nat, k: int)
    requires
        extends_ok(t),
        d <= max_path_len(t) + 1,
        forall|k2: int| 0 <= k2 < subs.len() ==> (#[trigger] subs[k2]).len() == d,
        0 <= k < subs.len(),
        spec_dir_size(t, subs[k]) is None,
    ensures
        spec_sum_subs(t, subs, d) is None,
    decreases subs.len(),
{
    if k < subs.len() - 1 {
        lemma_sum_none(t, subs.drop_last(), d, k);
    }
}

/// A prefix of the subfolder sum never exceeds the whole sum.
proof fn lemma_sum_prefix(t: Seq<FolderModel>, subs: Seq<Seq<Seq<u8>>>, d: nat, k: int)
    requires
        extends_ok(t),
        d <= max_path_len(t) + 1,
        forall|k2: int| 0 <= k2 < subs.len() ==> (#[trigger] subs[k2]).len() == d,
        0 <= k <= subs.len(),
    ensures
        (match spec_sum_subs(t, subs, d) {
            Some(v) => (match spec_sum_subs(t, subs.take(k), d) {
                Some(w) => w <= v,
                None => false,
            }),
            None => true,
        }),
    decreases subs.len() - k,
{
    if k == subs.len() {
        assert(subs.take(k) =~= subs);
    } else {
        lemma_sum_prefix(t, subs, d, k + 1);
        assert(subs.take(k + 1).drop_last() =~= subs.take(k));
        assert(subs.take(k + 1).last() == subs[k]);
    }
}

fn seg_eq(a: &Vec<u8>, b: &Vec<u8>) -> (r: bool)
    ensures
        r == (a@ == b@),
{
    if a.len() != b.len() {
        return false;
    }
    let mut i: usize = 0;
    while i < a.len()
        invariant
            i <= a.len(),
            a.len() == b.len(),
            forall|j: int| 0 <= j < i ==> a@[j] == b@[j],
        decreases a.len() - i,
    {
        if a[i] != b[i] {
            return false;
        }
        i += 1;
    }
    proof {
        assert(a@ =~= b@);
    }
    true
}

fn path_eq(a: &Vec<Vec<u8>>, b: &Vec<Vec<u8>>) -> (r: bool)
    ensures
        r == (a.deep_view() == b.deep_view()),
{
    if a.len() != b.len() {
        proof {
            assert(a.deep_view().len() != b.deep_view().len());
        }
        return false;
    }
    let mut i: usize = 0;
    while i < a.len()
        invariant
            i <= a.len(),
            a.len() == b.len(),
            forall|j: int| 0 <= j < i ==> (#[trigger] a@[j])@ == b@[j]@,
        decreases a.len() - i,
    {
        if !seg_eq(&a[i], &b[i]) {
            proof {
                assert(a@[i as int].deep_view() =~= a@[i as int]@);
                assert(b@[i as int].deep_view() =~= b@[i as int]@);
                assert(a.deep_view()[i as int] != b.deep_view()[i as int]);
            }
            return false;
        }
        i += 1;
    }
    proof {
        assert forall|j: int| 0 <= j < a@.len() implies a.deep_view()[j] == b.deep_view()[j] by {
            assert(a@[j].deep_view() =~= a@[j]@);
            assert(b@[j].deep_view() =~= b@[j]@);
        }
        assert(a.deep_view() =~= b.deep_view());
    }
    true
}

/// Looks a path up in the table.
pub fn find_dir(t: &DirTable, p: &Vec<Vec<u8>>) -> (r: Option<usize>)
    ensures
        (match r {
            Some(i) => i < t.records.len() && t.model()[i as int].path == p.deep_view(),
            None => !has_dir(t.model(), p.deep_view()),
        }),
{
    let mut i: usize = 0;
    while i < t.records.len()
        invariant
            i <= t.records.len(),
            forall|j: int| 0 <= j < i ==> t.model()[j].path != p.deep_view(),
        decreases t.records.len() - i,
    {
        if path_eq(&t.records[i].path, p) {
            return Some(i);
        }
        i += 1;
    }
    None
}

/// The recursive total size of `folder` within the table: its direct
/// file total plus the recursive sizes of all its subfolders.
pub fn day7_dir_size(folder: &Folder, dirs: &DirTable) -> (r: Result<u64, DirError>)
    requires
        table_wf(dirs.model()),
        dirs.records@.contains(*folder),
    ensures
        (match r {
            Ok(s) => spec_dir_size(dirs.model(), folder.path.deep_view()) == Some(s as nat),
            Err(DirError::MissingDir) => spec_dir_size(dirs.model(), folder.path.deep_view())
                is None,
            Err(DirError::Overflow) => (match spec_dir_size(
                dirs.model(),
                folder.path.deep_view(),
            ) {
                Some(n) => n > u64::MAX,
                None => true,
            }),
            Err(_) => false,
        }),
    decreases max_path_len(dirs.model()) + 1 - folder.path@.len(),
{
    let ghost tm = dirs.model();
    let ghost pp = folder.path.deep_view();
    let ghost fm = folder.model();
    let ghost d = (pp.len() + 1) as nat;
    proof {
        let i = choose|i: int|
            0 <= i < dirs.records@.len() && dirs.records@[i] == *folder;
        assert(tm[i] == fm);
        assert(has_dir(tm, pp));
        lemma_max_path_len(tm, i);
        let j = dir_idx(tm, pp);
        if i != j {
            assert(tm[i].path == tm[j].path);
            assert(false);
        }
        assert(dir_at(tm, pp) == fm);
        assert forall|k: int| 0 <= k < fm.subfolders.len() implies {
            &&& (#[trigger] fm.subfolders[k]).len() == d
            &&& fm.subfolders[k].take(pp.len() as int) == pp
        } by {
            assert(tm[i].subfolders[k] == fm.subfolders[k]);
        }
    }
    let mut size: u64 = folder.files_size;
    let ghost mut sum_g: nat = 0;
    let mut k: usize = 0;
    while k < folder.subfolders.len()
        invariant
            tm == dirs.model(),
            table_wf(tm),
            pp == folder.path.deep_view(),
            fm == folder.model(),
            d == pp.len() + 1,
            pp.len() <= max_path_len(tm),
            has_dir(tm, pp),
            dir_at(tm, pp) == fm,
            forall|k2: int|
                0 <= k2 < fm.subfolders.len() ==> (#[trigger] fm.subfolders[k2]).len() == d,
            k <= folder.subfolders.len(),
            spec_sum_subs(tm, fm.subfolders.take(k as int), d) == Some(sum_g),
            size == fm.files_size + sum_g,
        decreases folder.subfolders.len() - k,
    {
        proof {
            assert(fm.subfolders.take(k + 1).drop_last() =~= fm.subfolders.take(k as int));
            assert(fm.subfolders.take(k + 1).last() == fm.subfolders[k as int]);
        }
        let sub = &folder.subfolders[k];
        proof {
            assert(sub.deep_view() == fm.subfolders[k as int]);
        }
        match find_dir(dirs, sub) {
            None => {
                proof {
                    assert(spec_dir_size(tm, sub.deep_view()) is None);
                    lemma_sum_none(tm, fm.subfolders, d, k as int);
                }
                return Err(DirError::MissingDir);
            },
            Some(idx) => {
                let sf = &dirs.records[idx];
                proof {
                    assert(dirs.records@.contains(dirs.records@[idx as int]));
                    assert(sf.path.deep_view() == tm[idx as int].path);
                }
                match day7_dir_size(sf, dirs) {
                    Ok(s) => {
                        if s > u64::MAX - size {
                            proof {
                                lemma_sum_prefix(tm, fm.subfolders, d, k + 1);
                            }
                            return Err(DirError::Overflow);
                        }
                        size = size + s;
                        proof {
                            sum_g = sum_g + s as nat;
                        }
                    },
                    Err(e) => {
                        proof {
                            if spec_dir_size(tm, sub.deep_view()) is None {
                                lemma_sum_none(tm, fm.subfolders, d, k as int);
                            } else {
                                lemma_sum_prefix(tm, fm.subfolders, d, k + 1);
                            }
                        }
                        return Err(e);
                    },
                }
            },
        }
        k += 1;
    }
    proof {
        assert(fm.subfolders.take(folder.subfolders.len() as int) =~= fm.subfolders);
    }
    Ok(size)
}

/// The index of the first space in `s`, or its length when it has
/// none.
pub open spec fn first_space(s: Seq<u8>) -> int
    decreases s.len(),
{
    if s.len() == 0 {
        0
    } else if s.first() == (' ' as u8) {
        0
    } else {
        1 + first_space(s.drop_first())
    }
}

/// The text up to the first space.
pub open spec fn first_token(s: Seq<u8>) -> Seq<u8> {
    s.take(first_space(s))
}

pub open spec fn spec_starts_with(s: Seq<u8>, p: Seq<u8>) -> bool {
    p.len() <= s.len() && s.take(p.len() as int) == p
}

/// What one line of the transcript means.
pub enum LineModel {
    /// A change to the root directory.
    CdRoot,
    /// A change to the parent directory.
    CdUp,
    /// A change into the named subdirectory.
    Cd(Seq<u8>),
    /// A listing command; the lines after it are its results.
    Ls,
    /// A listing result declaring a subdirectory.
    DirEntry(Seq<u8>),
    /// A listing result declaring a file of the given size.
    FileEntry(nat),
    /// An empty or unrecognised command line, replayed as a no-op.
    Other,
    /// A malformed line: the replay aborts.
    Bad,
}

/// Classifies one line of the transcript.
pub open spec fn classify(line: Seq<u8>) -> LineModel {
    let cd_root = seq![('$' as u8), (' ' as u8), ('c' as u8), ('d' as u8), (' ' as u8), ('/' as u8)];
    let cd_up = seq![('$' as u8), (' ' as u8), ('c' as u8), ('d' as u8), (' ' as u8), ('.' as u8), ('.' as u8)];
    let cd = seq![('$' as u8), (' ' as u8), ('c' as u8), ('d' as u8), (' ' as u8)];
    let ls = seq![('$' as u8), (' ' as u8), ('l' as u8), ('s' as u8)];
    let dirp = seq![('d' as u8), ('i' as u8), ('r' as u8), (' ' as u8)];
    if line.len() == 0 {
        LineModel::Other
    } else if spec_starts_with(line, cd_root) {
        LineModel::CdRoot
    } else if spec_starts_with(line, cd_up) {
        LineModel::CdUp
    } else if spec_starts_with(line, cd) {
        let name = first_token(line.skip(5));
        if name.len() == 0 {
            LineModel::Bad
        } else {
            LineModel::Cd(name)
        }
    } else if spec_starts_with(line, ls) {
        LineModel::Ls
    } else if line.first() == ('$' as u8) {
        LineModel::Other
    } else if spec_starts_with(line, dirp) {
        let name = first_token(line.skip(4));
        if name.len() == 0 {
            LineModel::Bad
        } else {
            LineModel::DirEntry(name)
        }
    } else {
        match spec_parse_num(first_token(line)) {
            Some(n) => if n <= 0x7fffffff {
                LineModel::FileEntry(n)
            } else {
                LineModel::Bad
            },
            None => LineModel::Bad,
        }
    }
}

/// The executable counterpart of `LineModel`.
pub enum LineKind {
    CdRoot,
    CdUp,
    Cd(Vec<u8>),
    Ls,
    DirEntry(Vec<u8>),
    FileEntry(u64),
    Other,
    Bad,
}

pub open spec fn kind_model(k: LineKind) -> LineModel {
    match k {
        LineKind::CdRoot => LineModel::CdRoot,
        LineKind::CdUp => LineModel::CdUp,
        LineKind::Cd(v) => LineModel::Cd(v@),
        LineKind::Ls => LineModel::Ls,
        LineKind::DirEntry(v) => LineModel::DirEntry(v@),
        LineKind::FileEntry(n) => LineModel::FileEntry(n as nat),
        LineKind::Other => LineModel::Other,
        LineKind::Bad => LineModel::Bad,
    }
}

fn has_prefix(line: &Vec<u8>, p: &Vec<u8>) -> (r: bool)
    ensures
        r == spec_starts_with(line@, p@),
{
    if p.len() > line.len() {
        return false;
    }
    let mut j: usize = 0;
    while j < p.len()
        invariant
            j <= p.len() <= line.len(),
            forall|m: int| 0 <= m < j ==> line@[m] == p@[m],
        decreases p.len() - j,
    {
        if line[j] != p[j] {
            proof {
                assert(line@.take(p@.len() as int)[j as int] != p@[j as int]);
            }
            return false;
        }
        j += 1;
    }
    proof {
        assert(line@.take(p@.len() as int) =~= p@);
    }
    true
}

fn token_from(line: &Vec<u8>, from: usize) -> (r: Vec<u8>)
    requires
        from <= line.len(),
    ensures
        r@ == first_token(line@.skip(from as int)),
{
    let ghost s = line@.skip(from as int);
    let mut i: usize = from;
    while i < line.len() && line[i] != (' ' as u8)
        invariant
            from <= i <= line.len(),
            s == line@.skip(from as int),
            first_space(s) == (i - from) + first_space(line@.skip(i as int)),
        decreases line.len() - i,
    {
        proof {
            assert(line@.skip(i as int).first() == line@[i as int]);
            assert(line@.skip(i as int).drop_first() =~= line@.skip(i + 1));
        }
        i += 1;
    }
    proof {
        if i == line.len() {
            assert(line@.skip(i as int) =~= Seq::<u8>::empty());
        } else {
            assert(line@.skip(i as int).first() == line@[i as int]);
        }
        assert(first_space(s) == i - from);
    }
    let mut r: Vec<u8> = Vec::new();
    let mut j: usize = from;
    while j < i
        invariant
            from <= j <= i <= line.len(),
            r@ == line@.subrange(from as int, j as int),
        decreases i - j,
    {
        r.push(line[j]);
        proof {
            assert(r@ =~= line@.subrange(from as int, j + 1));
        }
        j += 1;
    }
    proof {
        assert(line@.subrange(from as int, i as int) =~= s.take(i - from));
    }
    r
}

/// Classifies one line, as `classify` does.
pub fn classify_line(line: &Vec<u8>) -> (r: LineKind)
    ensures
        kind_model(r) == classify(line@),
{
    if line.len() == 0 {
        return LineKind::Other;
    }
    let cd_root: Vec<u8> = vec![('$' as u8), (' ' as u8), ('c' as u8), ('d' as u8), (' ' as u8), ('/' as u8)];
    let cd_up: Vec<u8> = vec![('$' as u8), (' ' as u8), ('c' as u8), ('d' as u8), (' ' as u8), ('.' as u8), ('.' as u8)];
    let cd: Vec<u8> = vec![('$' as u8), (' ' as u8), ('c' as u8), ('d' as u8), (' ' as u8)];
    let ls: Vec<u8> = vec![('$' as u8), (' ' as u8), ('l' as u8), ('s' as u8)];
    let dirp: Vec<u8> = vec![('d' as u8), ('i' as u8), ('r' as u8), (' ' as u8)];
    if has_prefix(line, &cd_root) {
        return LineKind::CdRoot;
    }
    if has_prefix(line, &cd_up) {
        return LineKind::CdUp;
    }
    if has_prefix(line, &cd) {
        let name = token_from(line, 5);
        if name.len() == 0 {
            return LineKind::Bad;
        }
        return LineKind::Cd(name);
    }
    if has_prefix(line, &ls) {
        return LineKind::Ls;
    }
    if line[0] == ('$' as u8) {
        return LineKind::Other;
    }
    if has_prefix(line, &dirp) {
        let name = token_from(line, 4);
        if name.len() == 0 {
            return LineKind::Bad;
        }
        return LineKind::DirEntry(name);
    }
    let tok = token_from(line, 0);
    proof {
        assert(line@.skip(0) =~= line@);
        assert(tok@.skip(0) =~= tok@);
    }
    match parse_num_limited(&tok, 0, 0x7fffffff) {
        Some(x) => LineKind::FileEntry(x),
        None => LineKind::Bad,
    }
}

/// The replay state: the cursor path, the record table, and whether
/// the last command was a listing.
#[verifier::ext_equal]
pub struct ReplayModel {
    pub cur: Seq<Seq<u8>>,
    pub table: Seq<FolderModel>,
    pub listing: bool,
}

pub open spec fn replay_init() -> ReplayModel {
    ReplayModel { cur: Seq::empty(), table: Seq::empty(), listing: false }
}

pub open spec fn blank_record(p: Seq<Seq<u8>>) -> FolderModel {
    FolderModel { path: p, files_size: 0, subfolders: Seq::empty() }
}

/// A fresh empty record for `p`, replacing any earlier one.
pub open spec fn upsert_blank(t: Seq<FolderModel>, p: Seq<Seq<u8>>) -> Seq<FolderModel> {
    if has_dir(t, p) {
        t.update(dir_idx(t, p), blank_record(p))
    } else {
        t.push(blank_record(p))
    }
}

/// One line replayed against the state.
pub open spec fn replay_line(st: ReplayModel, l: LineModel) -> Result<ReplayModel, DirError> {
    match l {
        LineModel::CdRoot => Ok(
            ReplayModel { cur: Seq::empty(), table: st.table, listing: false },
        ),
        LineModel::CdUp => if st.cur.len() == 0 {
            Err(DirError::RootEscape)
        } else {
            Ok(ReplayModel { cur: st.cur.drop_last(), table: st.table, listing: false })
        },
        LineModel::Cd(name) => Ok(
            ReplayModel { cur: st.cur.push(name), table: st.table, listing: false },
        ),
        LineModel::Ls => Ok(
            ReplayModel { cur: st.cur, table: upsert_blank(st.table, st.cur), listing: true },
        ),
        LineModel::DirEntry(name) => if st.listing {
            let i = dir_idx(st.table, st.cur);
            let f = st.table[i];
            Ok(
                ReplayModel {
                    cur: st.cur,
                    table: st.table.update(
                        i,
                        FolderModel {
                            path: f.path,
                            files_size: f.files_size,
                            subfolders: f.subfolders.push(st.cur.push(name)),
                        },
                    ),
                    listing: true,
                },
            )
        } else {
            Ok(st)
        },
        LineModel::FileEntry(n) => if st.listing {
            let i = dir_idx(st.table, st.cur);
            let f = st.table[i];
            Ok(
                ReplayModel {
                    cur: st.cur,
                    table: st.table.update(
                        i,
                        FolderModel {
                            path: f.path,
                            files_size: f.files_size + n,
                            subfolders: f.subfolders,
                        },
                    ),
                    listing: true,
                },
            )
        } else {
            Ok(st)
        },
        LineModel::Other => Ok(st),
        LineModel::Bad => Err(DirError::MalformedLine),
    }
}

/// The whole transcript replayed from the initial state.
pub open spec fn spec_replay(lines: Seq<Seq<u8>>) -> Result<ReplayModel, DirError>
    decreases lines.len(),
{
    if lines.len() == 0 {
        Ok(replay_init())
    } else {
        match spec_replay(lines.drop_last()) {
            Ok(st) => replay_line(st, classify(lines.last())),
            Err(e) => Err(e),
        }
    }
}

/// The replay invariant: the table is well formed and, while a
/// listing is open, the cursor's record exists.
pub open spec fn replay_wf(st: ReplayModel) -> bool {
    table_wf(st.table) && (st.listing ==> has_dir(st.table, st.cur))
}

proof fn lemma_replay_line_wf(st: ReplayModel, l: LineModel)
    requires
        replay_wf(st),
    ensures
        (match replay_line(st, l) {
            Ok(st2) => replay_wf(st2),
            Err(_) => true,
        }),
{
    match l {
        LineModel::Ls => {
            let t = st.table;
            let t2 = upsert_blank(t, st.cur);
            if has_dir(t, st.cur) {
                let i = dir_idx(t, st.cur);
                assert forall|a: int, k: int|
                    0 <= a < t2.len() && 0 <= k < t2[a].subfolders.len() implies {
                    &&& (#[trigger] t2[a].subfolders[k]).len() == t2[a].path.len() + 1
                    &&& t2[a].subfolders[k].take(t2[a].path.len() as int) == t2[a].path
                } by {
                    assert(a != i ==> t2[a] == t[a]);
                }
                assert(has_dir(t2, st.cur)) by {
                    assert(t2[i].path == st.cur);
                }
            } else {
                assert forall|a: int, k: int|
                    0 <= a < t2.len() && 0 <= k < t2[a].subfolders.len() implies {
                    &&& (#[trigger] t2[a].subfolders[k]).len() == t2[a].path.len() + 1
                    &&& t2[a].subfolders[k].take(t2[a].path.len() as int) == t2[a].path
                } by {
                    assert(a < t.len() ==> t2[a] == t[a]);
                }
                assert(has_dir(t2, st.cur)) by {
                    assert(t2[t.len() as int].path == st.cur);
                }
            }
        },
        LineModel::DirEntry(name) => {
            if st.listing {
                let t = st.table;
                let i = dir_idx(t, st.cur);
                let f = t[i];
                assert(t[i].path == st.cur);
                let nf = FolderModel {
                    path: f.path,
                    files_size: f.files_size,
                    subfolders: f.subfolders.push(st.cur.push(name)),
                };
                let t2 = t.update(i, nf);
                assert(st.cur.push(name).take(st.cur.len() as int) =~= st.cur);
                assert forall|a: int, k: int|
                    0 <= a < t2.len() && 0 <= k < t2[a].subfolders.len() implies {
                    &&& (#[trigger] t2[a].subfolders[k]).len() == t2[a].path.len() + 1
                    &&& t2[a].subfolders[k].take(t2[a].path.len() as int) == t2[a].path
                } by {
                    if a == i {
                        if k < f.subfolders.len() {
                            assert(t[a].subfolders[k] == nf.subfolders[k]);
                        }
                    } else {
                        assert(t2[a] == t[a]);
                    }
                }
                assert(has_dir(t2, st.cur)) by {
                    assert(t2[i].path == st.cur);
                }
            }
        },
        LineModel::FileEntry(n) => {
            if st.listing {
                let t = st.table;
                let i = dir_idx(t, st.cur);
                let t2 = replay_line(st, l)->Ok_0.table;
                assert forall|a: int, k: int|
                    0 <= a < t2.len() && 0 <= k < t2[a].subfolders.len() implies {
                    &&& (#[trigger] t2[a].subfolders[k]).len() == t2[a].path.len() + 1
                    &&& t2[a].subfolders[k].take(t2[a].path.len() as int) == t2[a].path
                } by {
                    assert(t2[a].subfolders == t[a].subfolders && t2[a].path == t[a].path);
                }
                assert(has_dir(t2, st.cur)) by {
                    assert(t2[i].path == st.cur);
                }
            }
        },
        _ => {},
    }
}

pub proof fn lemma_replay_wf(lines: Seq<Seq<u8>>)
    ensures
        (match spec_replay(lines) {
            Ok(st) => replay_wf(st),
            Err(_) => true,
        }),
    decreases lines.len(),
{
    if lines.len() > 0 {
        lemma_replay_wf(lines.drop_last());
        match spec_replay(lines.drop_last()) {
            Ok(st) => lemma_replay_line_wf(st, classify(lines.last())),
            Err(_) => {},
        }
    }
}

/// An error at line `k` is the whole replay's outcome.
proof fn lemma_replay_err(lines: Seq<Seq<u8>>, k: int, e: DirError)
    requires
        0 <= k < lines.len(),
        (match spec_replay(lines.take(k)) {
            Ok(st) => replay_line(st, classify(lines[k])) == Err::<ReplayModel, DirError>(e),
            Err(_) => false,
        }),
    ensures
        spec_replay(lines) == Err::<ReplayModel, DirError>(e),
    decreases lines.len(),
{
    if k == lines.len() - 1 {
        assert(lines.take(k) =~= lines.drop_last());
    } else {
        assert(lines.drop_last().take(k) =~= lines.take(k));
        assert(lines.drop_last()[k] == lines[k]);
        lemma_replay_err(lines.drop_last(), k, e);
    }
}

/// A byte vector's deep view is its view: bytes view as themselves.
pub proof fn lemma_bytes_deep_view(v: Vec<u8>)
    ensures
        v.deep_view() == v@,
{
    assert(v.deep_view() =~= v@);
}

fn clone_seg(v: &Vec<u8>) -> (r: Vec<u8>)
    ensures
        r@ == v@,
{
    let mut r: Vec<u8> = Vec::new();
    let mut i: usize = 0;
    while i < v.len()
        invariant
            i <= v.len(),
            r@ == v@.take(i as int),
        decreases v.len() - i,
    {
        r.push(v[i]);
        proof {
            assert(r@ =~= v@.take(i + 1));
        }
        i += 1;
    }
    proof {
        assert(v@.take(v.len() as int) =~= v@);
    }
    r
}

fn clone_path(p: &Vec<Vec<u8>>) -> (r: Vec<Vec<u8>>)
    ensures
        r.deep_view() == p.deep_view(),
{
    let mut r: Vec<Vec<u8>> = Vec::new();
    let mut i: usize = 0;
    while i < p.len()
        invariant
            i <= p.len(),
            r.deep_view() == p.deep_view().take(i as int),
        decreases p.len() - i,
    {
        proof {
            assert(r.deep_view().len() == r@.len());
            assert(p.deep_view().len() == p@.len());
            assert(r@.len() == i);
        }
        let s = clone_seg(&p[i]);
        r.push(s);
        proof {
            lemma_bytes_deep_view(r@[i as int]);
            lemma_bytes_deep_view(p@[i as int]);
            assert(r.deep_view() =~= p.deep_view().take(i + 1));
        }
        i += 1;
    }
    proof {
        assert(p.deep_view().take(p.len() as int) =~= p.deep_view());
    }
    r
}

/// At some prefix of the replay a record's direct file total has
/// outgrown the 64-bit range.
pub open spec fn replay_prefix_big(ld: Seq<Seq<u8>>, i: int) -> bool {
    match spec_replay(ld.take(i)) {
        Ok(st) => exists|j: int|
            0 <= j < st.table.len() && (#[trigger] st.table[j]).files_size > u64::MAX,
        Err(_) => false,
    }
}

/// Replays the transcript's lines into the record table.
pub fn build_dirs(lines: &Vec<Vec<u8>>) -> (r: Result<DirTable, DirError>)
    ensures
        (match r {
            Ok(t) => (match spec_replay(lines.deep_view()) {
                Ok(st) => st.table == t.model() && table_wf(t.model()),
                Err(_) => false,
            }),
            Err(DirError::Overflow) => (exists|i: int|
                0 <= i <= lines.deep_view().len() && replay_prefix_big(lines.deep_view(), i)),
            Err(e) => spec_replay(lines.deep_view()) == Err::<ReplayModel, DirError>(e),
        }),
{
    let ghost ld = lines.deep_view();
    let mut cur: Vec<Vec<u8>> = Vec::new();
    let mut table = DirTable { records: Vec::new() };
    let mut listing: bool = false;
    let mut k: usize = 0;
    proof {
        assert(cur.deep_view() =~= Seq::<Seq<u8>>::empty());
        assert(table.model() =~= Seq::<FolderModel>::empty());
        assert(spec_replay(ld.take(0)) == Ok::<ReplayModel, DirError>(replay_init()));
        assert(replay_init() =~= (ReplayModel {
            cur: cur.deep_view(),
            table: table.model(),
            listing: listing,
        }));
    }
    while k < lines.len()
        invariant
            k <= lines.len(),
            ld == lines.deep_view(),
            (spec_replay(ld.take(k as int)) == Ok::<ReplayModel, DirError>(
                ReplayModel { cur: cur.deep_view(), table: table.model(), listing: listing },
            )),
        decreases lines.len() - k,
    {
        let ghost stm = ReplayModel { cur: cur.deep_view(), table: table.model(), listing: listing };
        proof {
            assert(ld.take(k + 1).drop_last() =~= ld.take(k as int));
            assert(ld.take(k + 1).last() == ld[k as int]);
            assert(ld[k as int] == lines@[k as int]@);
            lemma_replay_wf(ld.take(k as int));
        }
        match classify_line(&lines[k]) {
            LineKind::CdRoot => {
                cur = Vec::new();
                listing = false;
                proof {
                    assert(cur.deep_view() =~= Seq::<Seq<u8>>::empty());
                }
            },
            LineKind::CdUp => {
                if cur.len() == 0 {
                    proof {
                        lemma_replay_err(ld, k as int, DirError::RootEscape);
                    }
                    return Err(DirError::RootEscape);
                }
                let ghost oldc = cur.deep_view();
                cur.pop();
                listing = false;
                proof {
                    assert(cur.deep_view() =~= oldc.drop_last());
                }
            },
            LineKind::Cd(name) => {
                let ghost oldc = cur.deep_view();
                let ghost nv = name@;
                cur.push(name);
                listing = false;
                proof {
                    lemma_bytes_deep_view(cur@[cur@.len() - 1]);
                    assert(cur.deep_view() =~= oldc.push(nv));
                }
            },
            LineKind::Ls => {
                let blank = Folder {
                    path: clone_path(&cur),
                    files_size: 0,
                    subfolders: Vec::new(),
                };
                proof {
                    assert(blank.model() =~= blank_record(cur.deep_view()));
                }
                let ghost oldm = table.model();
                match find_dir(&table, &cur) {
                    Some(i) => {
                        proof {
                            let j = dir_idx(oldm, cur.deep_view());
                            assert(oldm[j].path == cur.deep_view());
                            if j != i {
                                assert(false);
                            }
                        }
                        let ghost oldrec = table.records@;
                        table.records.remove(i);
                        table.records.insert(i, blank);
                        proof {
                            assert(table.records@ =~= oldrec.update(
                                i as int,
                                table.records@[i as int],
                            ));
                            assert(table.model() =~= oldm.update(
                                i as int,
                                blank_record(cur.deep_view()),
                            ));
                            assert(table.model() =~= upsert_blank(oldm, cur.deep_view()));
                        }
                    },
                    None => {
                        table.records.push(blank);
                        proof {
                            assert(table.model() =~= oldm.push(blank_record(cur.deep_view())));
                            assert(table.model() =~= upsert_blank(oldm, cur.deep_view()));
                        }
                    },
                }
                listing = true;
            },
            LineKind::DirEntry(name) => {
                if listing {
                    let ghost oldm = table.model();
                    match find_dir(&table, &cur) {
                        Some(i) => {
                            proof {
                                let j = dir_idx(oldm, cur.deep_view());
                                assert(oldm[j].path == cur.deep_view());
                                if j != i {
                                    assert(false);
                                }
                            }
                            let mut np = clone_path(&cur);
                            let ghost nv = name@;
                            np.push(name);
                            proof {
                                lemma_bytes_deep_view(np@[np@.len() - 1]);
                                assert(np.deep_view() =~= cur.deep_view().push(nv));
                            }
                            let ghost oldrec = table.records@;
                            let mut f = table.records.remove(i);
                            let ghost oldsubs = f.subfolders.deep_view();
                            f.subfolders.push(np);
                            proof {
                                assert(f.subfolders.deep_view() =~= oldsubs.push(
                                    cur.deep_view().push(nv),
                                ));
                            }
                            table.records.insert(i, f);
                            proof {
                                assert(table.records@ =~= oldrec.update(
                                    i as int,
                                    table.records@[i as int],
                                ));
                                let nf = FolderModel {
                                    path: oldm[i as int].path,
                                    files_size: oldm[i as int].files_size,
                                    subfolders: oldm[i as int].subfolders.push(
                                        cur.deep_view().push(nv),
                                    ),
                                };
                                assert(table.model()[i as int] =~= nf);
                                assert(table.model() =~= oldm.update(i as int, nf));
                            }
                        },
                        None => {
                            proof {
                                assert(false);
                            }
                            return Err(DirError::MissingDir);
                        },
                    }
                }
            },
            LineKind::FileEntry(n) => {
                if listing {
                    let ghost oldm = table.model();
                    match find_dir(&table, &cur) {
                        Some(i) => {
                            proof {
                                let j = dir_idx(oldm, cur.deep_view());
                                assert(oldm[j].path == cur.deep_view());
                                if j != i {
                                    assert(false);
                                }
                            }
                            let ghost oldrec = table.records@;
                            let mut f = table.records.remove(i);
                            if n > u64::MAX - f.files_size {
                                proof {
                                    let st2 = replay_line(stm, classify(ld[k as int]));
                                    assert(st2 is Ok);
                                    let t2 = st2->Ok_0.table;
                                    assert(t2[i as int].files_size > u64::MAX);
                                    assert(replay_prefix_big(ld, k + 1));
                                }
                                return Err(DirError::Overflow);
                            }
                            f.files_size = f.files_size + n;
                            table.records.insert(i, f);
                            proof {
                                assert(table.records@ =~= oldrec.update(
                                    i as int,
                                    table.records@[i as int],
                                ));
                                let nf = FolderModel {
                                    path: oldm[i as int].path,
                                    files_size: (oldm[i as int].files_size + n) as nat,
                                    subfolders: oldm[i as int].subfolders,
                                };
                                assert(table.model()[i as int] =~= nf);
                                assert(table.model() =~= oldm.update(i as int, nf));
                            }
                        },
                        None => {
                            proof {
                                assert(false);
                            }
                            return Err(DirError::MissingDir);
                        },
                    }
                }
            },
            LineKind::Other => {},
            LineKind::Bad => {
                proof {
                    lemma_replay_err(ld, k as int, DirError::MalformedLine);
                }
                return Err(DirError::MalformedLine);
            },
        }
        k += 1;
    }
    proof {
        assert(ld.take(lines.len() as int) =~= ld);
        lemma_replay_wf(ld);
    }
    Ok(table)
}

/// The sum of the recursive sizes, over the first `i` records, of
/// the directories whose size is at most 100000.
pub open spec fn sum_small(t: Seq<FolderModel>, i: int) -> Option<nat>
    decreases i,
        when 0 <= i <= t.len()
{
    if i == 0 {
        Some(0)
    } else {
        match (sum_small(t, i - 1), spec_dir_size(t, t[i - 1].path)) {
            (Some(acc), Some(s)) => if s <= 100000 {
                Some(acc + s)
            } else {
                Some(acc)
            },
            _ => None,
        }
    }
}

/// The smallest recursive size, over the first `i` records, among
/// directories of size at least `needed`; the inner `None` when no
/// directory qualifies.
pub open spec fn min_above(t: Seq<FolderModel>, i: int, needed: int) -> Option<Option<nat>>
    decreases i,
        when 0 <= i <= t.len()
{
    if i == 0 {
        Some(None)
    } else {
        match (min_above(t, i - 1, needed), spec_dir_size(t, t[i - 1].path)) {
            (Some(best), Some(s)) => if s >= needed {
                match best {
                    None => Some(Some(s)),
                    Some(b) => if s < b {
                        Some(Some(s))
                    } else {
                        Some(Some(b))
                    },
                }
            } else {
                Some(best)
            },
            _ => None,
        }
    }
}

proof fn lemma_sum_small_none(t: Seq<FolderModel>, j: int, i: int)
    requires
        0 <= j < i <= t.len(),
        spec_dir_size(t, t[j].path) is None,
    ensures
        sum_small(t, i) is None,
    decreases i,
{
    if i > j + 1 {
        lemma_sum_small_none(t, j, i - 1);
    }
}

proof fn lemma_sum_small_prefix(t: Seq<FolderModel>, i: int)
    requires
        0 <= i <= t.len(),
    ensures
        (match sum_small(t, t.len() as int) {
            Some(v) => (match sum_small(t, i) {
                Some(w) => w <= v,
                None => false,
            }),
            None => true,
        }),
    decreases t.len() - i,
{
    if i < t.len() {
        lemma_sum_small_prefix(t, i + 1);
    }
}

/// Some counter in the replay or the size queries exceeds the 64-bit
/// range, so the aggregator gives up rather than wrap.
pub open spec fn day7_big(input: Seq<u8>) -> bool {
    let lines = spec_split(input, ('\n' as u8));
    ||| (exists|i: int| 0 <= i <= lines.len() && #[trigger] replay_prefix_big(lines, i))
    ||| (match spec_replay(lines) {
        Ok(st) => {
            ||| (exists|j: int|
                0 <= j < st.table.len() && (match spec_dir_size(
                    st.table,
                    (#[trigger] st.table[j]).path,
                ) {
                    Some(s) => s > u64::MAX,
                    None => false,
                }))
            ||| (match sum_small(st.table, st.table.len() as int) {
                Some(v) => v > u64::MAX,
                None => false,
            })
        },
        Err(_) => false,
    })
}

/// The whole computation on the transcript: replay it into the
/// table, then answer the two queries. The first answer sums the
/// sizes of all directories of size at most 100000; the second is
/// the smallest size among directories whose deletion would bring
/// the used space (the root's size) down to at most 40000000.
pub open spec fn spec_day7(input: Seq<u8>) -> Result<(nat, nat), DirError> {
    let lines = spec_split(input, ('\n' as u8));
    match spec_replay(lines) {
        Err(e) => Err(e),
        Ok(st) => {
            let t = st.table;
            match (sum_small(t, t.len() as int), spec_dir_size(t, Seq::empty())) {
                (Some(q1), Some(used)) => {
                    let needed = used + 30000000 - 70000000;
                    match min_above(t, t.len() as int, needed) {
                        Some(best) => (match best {
                            Some(q2) => Ok((q1, q2)),
                            None => Err(DirError::NoCandidate),
                        }),
                        None => Err(DirError::MissingDir),
                    }
                },
                _ => Err(DirError::MissingDir),
            }
        },
    }
}

/// What `day7` promises of its result: the exact answers of
/// `spec_day7`, except that a computation whose counters outgrow the
/// 64-bit range stops with `Overflow`.
pub open spec fn day7_matches(input: Seq<u8>, r: Result<(u64, u64), DirError>) -> bool {
    match (r, spec_day7(input)) {
        (Ok(p), Ok(sp)) => p.0 as nat == sp.0 && p.1 as nat == sp.1,
        (Err(DirError::Overflow), Ok(_)) => day7_big(input),
        (Err(DirError::Overflow), Err(_)) => true,
        (Err(e1), Err(e2)) => e1 == e2,
        _ => false,
    }
}

/// Law: the answers are a function of the input text alone; any two
/// results the contract admits for one input are equal, short of the
/// 64-bit machine limit.
pub proof fn lemma_day7_deterministic(
    input: Seq<u8>,
    r1: Result<(u64, u64), DirError>,
    r2: Result<(u64, u64), DirError>,
)
    requires
        day7_matches(input, r1),
        day7_matches(input, r2),
        r1 != Err::<(u64, u64), DirError>(DirError::Overflow),
        r2 != Err::<(u64, u64), DirError>(DirError::Overflow),
    ensures
        r1 == r2,
{
}

pub open spec fn best_model(best: Option<u64>) -> Option<nat> {
    match best {
        Some(b) => Some(b as nat),
        None => None,
    }
}

/// Parses the transcript and answers the two size queries.
pub fn day7(input: &Vec<u8>) -> (r: Result<(u64, u64), DirError>)
    ensures
        day7_matches(input@, r),
{
    let lines = split_bytes(input, ('\n' as u8));
    let ghost ld = lines.deep_view();
    let table = match build_dirs(&lines) {
        Ok(t) => t,
        Err(e) => {
            return Err(e);
        },
    };
    let ghost t = table.model();
    let mut q1: u64 = 0;
    let mut j: usize = 0;
    while j < table.records.len()
        invariant
            j <= table.records.len(),
            t == table.model(),
            table_wf(t),
            ld == spec_split(input@, ('\n' as u8)),
            (match spec_replay(ld) {
                Ok(st) => st.table == t,
                Err(_) => false,
            }),
            sum_small(t, j as int) == Some(q1 as nat),
            forall|m: int|
                0 <= m < j ==> (match spec_dir_size(t, (#[trigger] t[m]).path) {
                    Some(s) => s <= u64::MAX,
                    None => false,
                }),
        decreases table.records.len() - j,
    {
        proof {
            assert(table.records@.contains(table.records@[j as int]));
            assert(t[j as int].path == table.records@[j as int].path.deep_view());
        }
        match day7_dir_size(&table.records[j], &table) {
            Ok(s) => {
                if s <= 100000 {
                    if s > u64::MAX - q1 {
                        proof {
                            lemma_sum_small_prefix(t, j + 1);
                        }
                        return Err(DirError::Overflow);
                    }
                    q1 = q1 + s;
                }
            },
            Err(e) => {
                match e {
                    DirError::MissingDir => {
                        proof {
                            lemma_sum_small_none(t, j as int, t.len() as int);
                        }
                        return Err(DirError::MissingDir);
                    },
                    _ => {
                        proof {
                            if spec_dir_size(t, t[j as int].path) is None {
                                lemma_sum_small_none(t, j as int, t.len() as int);
                            }
                        }
                        return Err(DirError::Overflow);
                    },
                }
            },
        }
        j += 1;
    }
    let empty_path: Vec<Vec<u8>> = Vec::new();
    proof {
        assert(empty_path.deep_view() =~= Seq::<Seq<u8>>::empty());
    }
    let ri = match find_dir(&table, &empty_path) {
        Some(ri) => ri,
        None => {
            return Err(DirError::MissingDir);
        },
    };
    proof {
        assert(table.records@.contains(table.records@[ri as int]));
        assert(t[ri as int].path == table.records@[ri as int].path.deep_view());
    }
    let used = match day7_dir_size(&table.records[ri], &table) {
        Ok(u) => u,
        Err(e) => {
            match e {
                DirError::MissingDir => {
                    return Err(DirError::MissingDir);
                },
                _ => {
                    return Err(DirError::Overflow);
                },
            }
        },
    };
    let needed: i128 = used as i128 + 30000000 - 70000000;
    let ghost needed_g: int = used as int + 30000000 - 70000000;
    let mut best: Option<u64> = None;
    let mut j2: usize = 0;
    while j2 < table.records.len()
        invariant
            j2 <= table.records.len(),
            t == table.model(),
            table_wf(t),
            needed == needed_g,
            min_above(t, j2 as int, needed_g) == Some(best_model(best)),
            (match best {
                Some(b) => b <= u64::MAX,
                None => true,
            }),
            forall|m: int|
                0 <= m < t.len() ==> (match spec_dir_size(t, (#[trigger] t[m]).path) {
                    Some(s) => s <= u64::MAX,
                    None => false,
                }),
        decreases table.records.len() - j2,
    {
        proof {
            assert(table.records@.contains(table.records@[j2 as int]));
            assert(t[j2 as int].path == table.records@[j2 as int].path.deep_view());
        }
        match day7_dir_size(&table.records[j2], &table) {
            Ok(s) => {
                if s as i128 >= needed {
                    best = match best {
                        None => Some(s),
                        Some(b) => if s < b {
                            Some(s)
                        } else {
                            Some(b)
                        },
                    };
                }
            },
            Err(_) => {
                proof {
                    assert(false);
                }
                return Err(DirError::MissingDir);
            },
        }
        j2 += 1;
    }
    match best {
        Some(b) => Ok((q1, b)),
        None => Err(DirError::NoCandidate),
    }
}

} // verus!
