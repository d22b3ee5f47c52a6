//! The computations behind the SFTP browser: remote paths, directory
//! listings in display order, file metadata and request validation.
use vstd::prelude::*;

use crate::ssh_config_parser::opt_str;
use crate::text::{chars_of, replace_char, replace_char_spec, trim, trim_str};

verus! {

/// A directory entry as the browser shows it.
#[derive(Debug)]
pub struct SftpEntry {
    pub name: String,
    pub path: String,
    pub is_dir: bool,
    pub is_symlink: bool,
    pub size: u64,
    pub created_unix: Option<u64>,
    pub modified_unix: Option<u64>,
    pub chmod: String,
}

/// The value of an [`SftpEntry`].
pub struct SftpEntryView {
    pub name: Seq<char>,
    pub path: Seq<char>,
    pub is_dir: bool,
    pub is_symlink: bool,
    pub size: u64,
    pub created_unix: Option<u64>,
    pub modified_unix: Option<u64>,
    pub chmod: Seq<char>,
}

impl View for SftpEntry {
    type V = SftpEntryView;

    open spec fn view(&self) -> SftpEntryView {
        SftpEntryView {
            name: self.name@,
            path: self.path@,
            is_dir: self.is_dir,
            is_symlink: self.is_symlink,
            size: self.size,
            created_unix: self.created_unix,
            modified_unix: self.modified_unix,
            chmod: self.chmod@,
        }
    }
}

/// A directory listing.
#[derive(Debug)]
pub struct SftpListResponse {
    pub path: String,
    pub entries: Vec<SftpEntry>,
}

/// A remote text file opened for editing.
#[derive(Debug)]
pub struct SftpReadFileResponse {
    pub path: String,
    pub size: u64,
    pub modified_unix: Option<u64>,
    pub chmod: String,
    pub content: String,
}

/// The state of a remote file after it was saved.
#[derive(Debug)]
pub struct SftpWriteFileResponse {
    pub path: String,
    pub size: u64,
    pub modified_unix: Option<u64>,
    pub chmod: String,
}

/// The attributes of a remote file that the browser reads, as the SFTP
/// server reports them (seconds since the Unix epoch for the times, the
/// Unix mode for the permissions).
#[derive(Debug, Clone, Copy)]
pub struct RemoteAttrs {
    pub size: Option<u64>,
    pub permissions: Option<u32>,
    pub atime: Option<u32>,
    pub mtime: Option<u32>,
}

/// The largest file, in bytes, that can be opened or saved in the editor.
pub const MAX_EDITABLE_FILE_BYTES: usize = 10 * 1024 * 1024;

/// `s` without trailing `'/'`.
pub open spec fn trim_trailing_slashes(s: Seq<char>) -> Seq<char>
    decreases s.len(),
{
    if s.len() > 0 && s.last() == '/' {
        trim_trailing_slashes(s.drop_last())
    } else {
        s
    }
}

/// The remote path of `name` inside the directory `base`.
pub open spec fn join_remote_spec(base: Seq<char>, name: Seq<char>) -> Seq<char> {
    if base == seq!['/'] {
        seq!['/'] + name
    } else {
        trim_trailing_slashes(base) + seq!['/'] + name
    }
}

fn slash() -> (s: &'static str)
    ensures
        s@ == seq!['/'],
{
    proof {
        reveal_strlit("/");
    }
    "/"
}

fn dot() -> (s: &'static str)
    ensures
        s@ == seq!['.'],
{
    proof {
        reveal_strlit(".");
    }
    "."
}

/// The remote path of `name` inside the directory `base`.
pub fn join_remote(base: &str, name: &str) -> (p: String)
    ensures
        p@ == join_remote_spec(base@, name@),
{
    let v = chars_of(base);
    if v.len() == 1 && v[0] == '/' {
        assert(base@ =~= seq!['/']);
        let mut p = slash().to_owned();
        p.append(name);
        p
    } else {
        assert(base@ != seq!['/']) by {
            if base@ == seq!['/'] {
                assert(v@[0] == '/');
            }
        }
        let mut j = v.len();
        assert(v@.subrange(0, j as int) =~= v@);
        while j > 0 && v[j - 1] == '/'
            invariant
                j <= v@.len(),
                v@ == base@,
                trim_trailing_slashes(base@) == trim_trailing_slashes(v@.subrange(0, j as int)),
            decreases j,
        {
            assert(v@.subrange(0, j as int).drop_last() =~= v@.subrange(0, j - 1));
            j = j - 1;
        }
        let mut p = base.substring_char(0, j).to_owned();
        p.append(slash());
        p.append(name);
        p
    }
}

/// The directory to list for a requested path: the path trimmed, or `.`
/// when it is absent or blank.
pub open spec fn normalize_path_spec(value: Option<Seq<char>>) -> Seq<char> {
    match value {
        Some(p) => if trim(p).len() == 0 {
            seq!['.']
        } else {
            trim(p)
        },
        None => seq!['.'],
    }
}

/// The directory to list for a requested path: the path trimmed, or `.`
/// when it is absent or blank.
pub fn normalize_path(value: Option<String>) -> (p: String)
    ensures
        p@ == normalize_path_spec(opt_str(value)),
{
    match value {
        Some(path) => {
            let trimmed = trim_str(path.as_str());
            if trimmed.as_str().unicode_len() == 0 {
                dot().to_owned()
            } else {
                trimmed
            }
        },
        None => dot().to_owned(),
    }
}

/// The modification time of a remote file in seconds since the Unix epoch,
/// when the server reported one.
pub fn metadata_modified_unix(attrs: &RemoteAttrs) -> (t: Option<u64>)
    ensures
        t == match attrs.mtime {
            Some(m) => Some(m as u64),
            None => None::<u64>,
        },
{
    match attrs.mtime {
        Some(m) => Some(m as u64),
        None => None,
    }
}

/// The access time of a remote file in seconds since the Unix epoch, when
/// the server reported one.
pub fn metadata_accessed_unix(attrs: &RemoteAttrs) -> (t: Option<u64>)
    ensures
        t == match attrs.atime {
            Some(a) => Some(a as u64),
            None => None::<u64>,
        },
{
    match attrs.atime {
        Some(a) => Some(a as u64),
        None => None,
    }
}

/// The size of a remote file; 0 when the server reported none.
pub open spec fn size_of(attrs: RemoteAttrs) -> u64 {
    match attrs.size {
        Some(s) => s,
        None => 0,
    }
}

/// The Unix mode of a remote file; 0 when the server reported none.
pub open spec fn mode_of(attrs: RemoteAttrs) -> u32 {
    match attrs.permissions {
        Some(m) => m,
        None => 0,
    }
}

/// `c` when the permission bit `bit` is set in `mode`, `-` otherwise.
pub open spec fn perm_char(mode: u32, bit: u32, c: char) -> char {
    if mode & bit != 0 {
        c
    } else {
        '-'
    }
}

/// The `rwxrwxrwx` rendering of the permission bits of `mode`.
pub open spec fn permission_string(mode: u32) -> Seq<char> {
    seq![
        perm_char(mode, 0o400, 'r'),
        perm_char(mode, 0o200, 'w'),
        perm_char(mode, 0o100, 'x'),
        perm_char(mode, 0o40, 'r'),
        perm_char(mode, 0o20, 'w'),
        perm_char(mode, 0o10, 'x'),
        perm_char(mode, 0o4, 'r'),
        perm_char(mode, 0o2, 'w'),
        perm_char(mode, 0o1, 'x'),
    ]
}

/// The file-type bits of a Unix mode.
pub open spec fn file_type_bits(mode: u32) -> u32 {
    mode & 0xF000
}

/// Calls `russh_sftp::protocol::FileAttributes::permissions` on attributes
/// holding only `permissions` and renders the result with the `Display`
/// impl of `FilePermissions`. Claimed, as that crate's source writes it:
/// the nine permission bits of the mode (0 when absent), owner first, as
/// `r`, `w`, `x` for a set bit and `-` for a clear one.
#[verifier::external_body]
fn permissions_text(permissions: Option<u32>) -> (s: String)
    ensures
        s@ == permission_string(
            match permissions {
                Some(m) => m,
                None => 0,
            },
        ),
{
    russh_sftp::protocol::FileAttributes { permissions, ..Default::default() }.permissions().to_string()
}

/// Calls `russh_sftp::protocol::FileAttributes::file_type` on attributes
/// holding only `permissions`, then `FileType::is_dir` and
/// `FileType::is_symlink`. Claimed, as that crate's source computes it
/// (`FileMode::from_bits_truncate` keeps the bits 0xF000): a directory
/// exactly when those bits of the mode (0 when absent) are 0x4000, a
/// symbolic link exactly when they are 0xA000.
#[verifier::external_body]
fn file_kind(permissions: Option<u32>) -> (k: (bool, bool))
    ensures
        k.0 == (file_type_bits(
            match permissions {
                Some(m) => m,
                None => 0,
            },
        ) == 0x4000),
        k.1 == (file_type_bits(
            match permissions {
                Some(m) => m,
                None => 0,
            },
        ) == 0xA000),
{
    let t = russh_sftp::protocol::FileAttributes { permissions, ..Default::default() }.file_type();
    (t.is_dir(), t.is_symlink())
}

impl RemoteAttrs {
    /// Whether the attributes are those of a directory: the file-type bits
    /// of the mode (0 when absent) are 0x4000.
    pub fn is_dir(&self) -> (b: bool)
        ensures
            b == (file_type_bits(mode_of(*self)) == 0x4000),
    {
        file_kind(self.permissions).0
    }
}

/// The entry that the browser shows for the file `name` of the directory
/// `dir`.
pub open spec fn entry_spec(dir: Seq<char>, name: Seq<char>, attrs: RemoteAttrs) -> SftpEntryView {
    SftpEntryView {
        name,
        path: join_remote_spec(dir, name),
        is_dir: file_type_bits(mode_of(attrs)) == 0x4000,
        is_symlink: file_type_bits(mode_of(attrs)) == 0xA000,
        size: size_of(attrs),
        created_unix: match attrs.atime {
            Some(a) => Some(a as u64),
            None => None,
        },
        modified_unix: match attrs.mtime {
            Some(m) => Some(m as u64),
            None => None,
        },
        chmod: permission_string(mode_of(attrs)),
    }
}

impl SftpEntry {
    /// The entry for the file `name` of the directory `dir`. The creation
    /// time shown is the access time the server reports.
    pub fn from_listing(dir: &str, name: String, attrs: &RemoteAttrs) -> (e: Self)
        ensures
            e@ == entry_spec(dir@, name@, *attrs),
    {
        let (is_dir, is_symlink) = file_kind(attrs.permissions);
        let path = join_remote(dir, name.as_str());
        let size = match attrs.size {
            Some(s) => s,
            None => 0,
        };
        SftpEntry {
            path,
            name,
            is_dir,
            is_symlink,
            size,
            created_unix: metadata_accessed_unix(attrs),
            modified_unix: metadata_modified_unix(attrs),
            chmod: permissions_text(attrs.permissions),
        }
    }
}

impl SftpReadFileResponse {
    /// The response for the file at `path` with `attrs`, holding `content`.
    pub fn new(path: String, attrs: &RemoteAttrs, content: String) -> (r: Self)
        ensures
            r.path@ == path@,
            r.size == size_of(*attrs),
            r.modified_unix == (match attrs.mtime {
                Some(m) => Some(m as u64),
                None => None::<u64>,
            }),
            r.chmod@ == permission_string(mode_of(*attrs)),
            r.content@ == content@,
    {
        let size = match attrs.size {
            Some(s) => s,
            None => 0,
        };
        SftpReadFileResponse {
            path,
            size,
            modified_unix: metadata_modified_unix(attrs),
            chmod: permissions_text(attrs.permissions),
            content,
        }
    }
}

impl SftpWriteFileResponse {
    /// The response for the file at `path`, saved, with `attrs`.
    pub fn new(path: String, attrs: &RemoteAttrs) -> (r: Self)
        ensures
            r.path@ == path@,
            r.size == size_of(*attrs),
            r.modified_unix == (match attrs.mtime {
                Some(m) => Some(m as u64),
                None => None::<u64>,
            }),
            r.chmod@ == permission_string(mode_of(*attrs)),
    {
        let size = match attrs.size {
            Some(s) => s,
            None => 0,
        };
        SftpWriteFileResponse {
            path,
            size,
            modified_unix: metadata_modified_unix(attrs),
            chmod: permissions_text(attrs.permissions),
        }
    }
}


/// What `str::to_lowercase` returns for `s`: the Unicode lower-case mapping
/// of every character.
pub uninterp spec fn lowercase_of(s: Seq<char>) -> Seq<char>;

/// Calls `str::to_lowercase`. Claimed: the result is [`lowercase_of`] the
/// argument, a function of the text alone; what that mapping is (the
/// Unicode lower-case tables of the standard library) is not stated.
#[verifier::external_body]
fn to_lowercase(s: &str) -> (r: String)
    ensures
        r@ == lowercase_of(s@),
{
    s.to_lowercase()
}

/// Lexicographic order of character sequences by code point, the order of
/// `String` comparison.
pub open spec fn seq_lt(a: Seq<char>, b: Seq<char>) -> bool
    decreases a.len(),
{
    if a.len() == 0 {
        b.len() > 0
    } else if b.len() == 0 {
        false
    } else if a[0] != b[0] {
        a[0] < b[0]
    } else {
        seq_lt(a.drop_first(), b.drop_first())
    }
}

/// `a` is a proper prefix of `b`.
pub open spec fn is_proper_prefix(a: Seq<char>, b: Seq<char>) -> bool {
    a.len() < b.len() && b.take(a.len() as int) == a
}

/// `a` and `b` agree before position `i`, where `a` has the smaller
/// character.
pub open spec fn differs_first_lower_at(a: Seq<char>, b: Seq<char>, i: int) -> bool {
    0 <= i < a.len() && i < b.len() && a.take(i) == b.take(i) && a[i] < b[i]
}

/// The name order of listings is the lexicographic order of `String`: `a`
/// comes before `b` exactly when `a` is a proper prefix of `b`, or at the
/// first place where they differ `a` has the smaller character.
pub proof fn law_seq_lt_lexicographic(a: Seq<char>, b: Seq<char>)
    ensures
        seq_lt(a, b) <==> (is_proper_prefix(a, b) || exists|i: int| #[trigger]
            differs_first_lower_at(a, b, i)),
    decreases a.len(),
{
    if a.len() == 0 {
        if b.len() > 0 {
            assert(b.take(0) =~= a);
        }
    } else if b.len() == 0 {
    } else if a[0] != b[0] {
        if a[0] < b[0] {
            assert(a.take(0) =~= b.take(0));
            assert(differs_first_lower_at(a, b, 0));
        } else {
            if is_proper_prefix(a, b) {
                assert(b.take(a.len() as int)[0] == a[0]);
            }
            if exists|i: int| #[trigger] differs_first_lower_at(a, b, i) {
                let i = choose|i: int| #[trigger] differs_first_lower_at(a, b, i);
                if i > 0 {
                    assert(a.take(i)[0] == b.take(i)[0]);
                }
            }
        }
    } else {
        let a1 = a.drop_first();
        let b1 = b.drop_first();
        law_seq_lt_lexicographic(a1, b1);
        if is_proper_prefix(a1, b1) {
            assert(b.take(a.len() as int) =~= seq![b[0]] + b1.take(a1.len() as int));
            assert(a =~= seq![a[0]] + a1);
        }
        if is_proper_prefix(a, b) {
            assert(b1.take(a1.len() as int) =~= b.take(a.len() as int).drop_first());
        }
        if exists|i: int| #[trigger] differs_first_lower_at(a1, b1, i) {
            let i = choose|i: int| #[trigger] differs_first_lower_at(a1, b1, i);
            assert(a.take(i + 1) =~= seq![a[0]] + a1.take(i));
            assert(b.take(i + 1) =~= seq![b[0]] + b1.take(i));
            assert(differs_first_lower_at(a, b, i + 1));
        }
        if exists|i: int| #[trigger] differs_first_lower_at(a, b, i) {
            let i = choose|i: int| #[trigger] differs_first_lower_at(a, b, i);
            assert(i != 0);
            assert(a1.take(i - 1) =~= a.take(i).drop_first());
            assert(b1.take(i - 1) =~= b.take(i).drop_first());
            assert(differs_first_lower_at(a1, b1, i - 1));
        }
    }
}

/// A name is listed before every longer name that starts with it.
pub proof fn law_prefix_sorts_first(a: Seq<char>, b: Seq<char>)
    requires
        b.len() > 0,
    ensures
        seq_lt(a, a + b),
        !seq_lt(a + b, a),
{
    assert((a + b).take(a.len() as int) =~= a);
    law_seq_lt_lexicographic(a, a + b);
    law_seq_lt_lexicographic(a + b, a);
    if exists|i: int| #[trigger] differs_first_lower_at(a + b, a, i) {
        let i = choose|i: int| #[trigger] differs_first_lower_at(a + b, a, i);
        assert((a + b)[i] == a[i]);
    }
}

/// The rank of an entry in a listing: directories first, then by
/// lower-cased name.
pub open spec fn rank_of(e: SftpEntryView) -> (bool, Seq<char>) {
    (e.is_dir, lowercase_of(e.name))
}

/// `a` ranks strictly before `b`.
pub open spec fn rank_lt(a: (bool, Seq<char>), b: (bool, Seq<char>)) -> bool {
    (a.0 && !b.0) || (a.0 == b.0 && seq_lt(a.1, b.1))
}

/// `a` is listed before `b`: a directory before a file, otherwise the
/// lower-cased names in order.
pub open spec fn listed_before(a: SftpEntryView, b: SftpEntryView) -> bool {
    rank_lt(rank_of(a), rank_of(b))
}

/// `p` maps positions `0..n` one-to-one onto `0..n`.
pub open spec fn is_index_permutation(p: Seq<int>, n: nat) -> bool {
    &&& p.len() == n
    &&& forall|k: int| 0 <= k < n ==> 0 <= #[trigger] p[k] < n
    &&& forall|k: int, l: int| 0 <= k < l < n ==> #[trigger] p[k] != #[trigger] p[l]
}

/// `r` is `s` in listing order, entries of equal rank kept in the order of
/// `s`, as a stable sort by rank gives it.
pub open spec fn is_listing_order(r: Seq<SftpEntryView>, s: Seq<SftpEntryView>) -> bool {
    exists|p: Seq<int>|
        {
            &&& #[trigger] is_index_permutation(p, s.len())
            &&& r.len() == s.len()
            &&& forall|k: int| 0 <= k < r.len() ==> #[trigger] r[k] == s[p[k]]
            &&& forall|k: int, l: int|
                0 <= k < l < r.len() ==> !listed_before(#[trigger] r[l], #[trigger] r[k])
            &&& forall|k: int, l: int|
                0 <= k < l < r.len() && rank_of(#[trigger] r[k]) == rank_of(#[trigger] r[l])
                    ==> p[k] < p[l]
        }
}

/// The views of a list of entries.
pub open spec fn entry_views(s: Seq<SftpEntry>) -> Seq<SftpEntryView> {
    s.map_values(|e: SftpEntry| e@)
}

proof fn lemma_seq_lt_irreflexive(a: Seq<char>)
    ensures
        !seq_lt(a, a),
    decreases a.len(),
{
    if a.len() > 0 {
        lemma_seq_lt_irreflexive(a.drop_first());
    }
}

proof fn lemma_seq_lt_transitive(a: Seq<char>, b: Seq<char>, c: Seq<char>)
    requires
        seq_lt(a, b),
        seq_lt(b, c),
    ensures
        seq_lt(a, c),
    decreases a.len(),
{
    if a.len() > 0 && a[0] == b[0] && b[0] == c[0] {
        lemma_seq_lt_transitive(a.drop_first(), b.drop_first(), c.drop_first());
    }
}

proof fn lemma_seq_lt_total(a: Seq<char>, b: Seq<char>)
    requires
        a != b,
    ensures
        seq_lt(a, b) || seq_lt(b, a),
    decreases a.len(),
{
    if a.len() > 0 && b.len() > 0 && a[0] == b[0] {
        if a.drop_first() == b.drop_first() {
            assert(a =~= seq![a[0]] + a.drop_first());
            assert(b =~= seq![b[0]] + b.drop_first());
        }
        lemma_seq_lt_total(a.drop_first(), b.drop_first());
    } else if a.len() == 0 && b.len() == 0 {
        assert(a =~= b);
    }
}

proof fn lemma_rank_lt_irreflexive(a: (bool, Seq<char>))
    ensures
        !rank_lt(a, a),
{
    lemma_seq_lt_irreflexive(a.1);
}

proof fn lemma_rank_lt_transitive(a: (bool, Seq<char>), b: (bool, Seq<char>), c: (bool, Seq<char>))
    requires
        rank_lt(a, b),
        rank_lt(b, c),
    ensures
        rank_lt(a, c),
{
    if a.0 == b.0 && b.0 == c.0 {
        lemma_seq_lt_transitive(a.1, b.1, c.1);
    }
}

proof fn lemma_rank_lt_asymmetric(a: (bool, Seq<char>), b: (bool, Seq<char>))
    requires
        rank_lt(a, b),
    ensures
        !rank_lt(b, a),
{
    if rank_lt(b, a) {
        lemma_rank_lt_transitive(a, b, a);
        lemma_rank_lt_irreflexive(a);
    }
}

/// `x < a` and `a <= b` give `x < b`.
proof fn lemma_rank_lt_chain(x: (bool, Seq<char>), a: (bool, Seq<char>), b: (bool, Seq<char>))
    requires
        rank_lt(x, a),
        !rank_lt(b, a),
    ensures
        rank_lt(x, b),
{
    if a.0 == b.0 && a.1 != b.1 {
        lemma_seq_lt_total(a.1, b.1);
        if x.0 == a.0 {
            lemma_seq_lt_transitive(x.1, a.1, b.1);
        }
    }
    if a.0 == b.0 && a.1 == b.1 {
        assert(a == b);
    }
}

spec fn sorted_ranks(ks: Seq<(bool, Seq<char>)>) -> bool {
    forall|k: int, l: int| 0 <= k < l < ks.len() ==> !rank_lt(#[trigger] ks[l], #[trigger] ks[k])
}

spec fn stable_in(ks: Seq<(bool, Seq<char>)>, p: Seq<int>) -> bool {
    forall|k: int, l: int|
        0 <= k < l < ks.len() && #[trigger] ks[k] == #[trigger] ks[l] ==> p[k] < p[l]
}

proof fn lemma_insert_step(ks: Seq<(bool, Seq<char>)>, p: Seq<int>, x: (bool, Seq<char>), pos: int)
    requires
        ks.len() == p.len(),
        is_index_permutation(p, p.len()),
        sorted_ranks(ks),
        stable_in(ks, p),
        0 <= pos <= ks.len(),
        forall|j: int| 0 <= j < pos ==> !rank_lt(x, #[trigger] ks[j]),
        pos < ks.len() ==> rank_lt(x, ks[pos]),
    ensures
        is_index_permutation(p.insert(pos, p.len() as int), p.len() + 1),
        sorted_ranks(ks.insert(pos, x)),
        stable_in(ks.insert(pos, x), p.insert(pos, p.len() as int)),
{
    let n = ks.len() as int;
    let ks2 = ks.insert(pos, x);
    let p2 = p.insert(pos, n);
    assert forall|k: int| 0 <= k < n + 1 implies 0 <= #[trigger] p2[k] < n + 1 by {
        if k < pos {
            assert(p2[k] == p[k]);
        } else if k > pos {
            assert(p2[k] == p[k - 1]);
        }
    }
    assert forall|k: int, l: int| 0 <= k < l < n + 1 implies #[trigger] p2[k] != #[trigger] p2[l] by {
        if k < pos && l > pos {
            assert(p2[k] == p[k] && p2[l] == p[l - 1]);
        } else if k > pos {
            assert(p2[k] == p[k - 1] && p2[l] == p[l - 1]);
        } else if l < pos {
            assert(p2[k] == p[k] && p2[l] == p[l]);
        } else if k == pos {
            assert(p2[l] == p[l - 1]);
        } else {
            assert(p2[k] == p[k]);
        }
    }
    assert forall|k: int, l: int| 0 <= k < l < n + 1 implies !rank_lt(
        #[trigger] ks2[l],
        #[trigger] ks2[k],
    ) by {
        if l < pos {
            assert(ks2[k] == ks[k] && ks2[l] == ks[l]);
        } else if l == pos {
            assert(ks2[k] == ks[k]);
        } else if k == pos {
            assert(ks2[l] == ks[l - 1]);
            if l - 1 > pos {
                assert(!rank_lt(ks[l - 1], ks[pos]));
            }
            lemma_rank_lt_irreflexive(ks[pos]);
            lemma_rank_lt_chain(x, ks[pos], ks[l - 1]);
            lemma_rank_lt_asymmetric(x, ks[l - 1]);
        } else if k < pos {
            assert(ks2[k] == ks[k] && ks2[l] == ks[l - 1]);
        } else {
            assert(ks2[k] == ks[k - 1] && ks2[l] == ks[l - 1]);
        }
    }
    assert forall|k: int, l: int|
        0 <= k < l < n + 1 && #[trigger] ks2[k] == #[trigger] ks2[l] implies p2[k] < p2[l] by {
        if l < pos {
            assert(ks2[k] == ks[k] && ks2[l] == ks[l]);
        } else if l == pos {
            assert(p2[k] == p[k]);
        } else if k == pos {
            assert(ks2[l] == ks[l - 1]);
            if l - 1 > pos {
                assert(!rank_lt(ks[l - 1], ks[pos]));
            }
            lemma_rank_lt_irreflexive(ks[pos]);
            lemma_rank_lt_chain(x, ks[pos], ks[l - 1]);
            lemma_rank_lt_irreflexive(x);
        } else if k < pos {
            assert(ks2[k] == ks[k] && ks2[l] == ks[l - 1]);
            assert(p2[k] == p[k] && p2[l] == p[l - 1]);
        } else {
            assert(ks2[k] == ks[k - 1] && ks2[l] == ks[l - 1]);
            assert(p2[k] == p[k - 1] && p2[l] == p[l - 1]);
        }
    }
}

fn chars_lt(a: &Vec<char>, b: &Vec<char>) -> (r: bool)
    ensures
        r == seq_lt(a@, b@),
{
    let mut i: usize = 0;
    assert(a@.skip(0) =~= a@ && b@.skip(0) =~= b@);
    while i < a.len() && i < b.len() && a[i] == b[i]
        invariant
            i <= a@.len(),
            i <= b@.len(),
            seq_lt(a@, b@) == seq_lt(a@.skip(i as int), b@.skip(i as int)),
        decreases a@.len() - i,
    {
        assert(a@.skip(i as int).drop_first() =~= a@.skip(i + 1));
        assert(b@.skip(i as int).drop_first() =~= b@.skip(i + 1));
        i = i + 1;
    }
    if i == a.len() {
        i < b.len()
    } else if i == b.len() {
        false
    } else {
        a[i] < b[i]
    }
}

fn rank_lt_exec(x_dir: bool, x_name: &Vec<char>, y_dir: bool, y_name: &Vec<char>) -> (r: bool)
    ensures
        r == rank_lt((x_dir, x_name@), (y_dir, y_name@)),
{
    (x_dir && !y_dir) || (x_dir == y_dir && chars_lt(x_name, y_name))
}

/// `r` is `s` ordered by rank, where `lowered[i]` stands for the name of
/// `s[i]`: directories first, then by `lowered`, entries of equal rank in
/// the order of `s`.
pub open spec fn is_ranked_order(r: Seq<SftpEntryView>, s: Seq<SftpEntryView>, lowered: Seq<Seq<char>>) -> bool {
    exists|p: Seq<int>|
        {
            &&& #[trigger] is_index_permutation(p, s.len())
            &&& r.len() == s.len()
            &&& forall|k: int| 0 <= k < r.len() ==> #[trigger] r[k] == s[p[k]]
            &&& forall|k: int, l: int|
                0 <= k < l < r.len() ==> !rank_lt(
                    (#[trigger] r[l].is_dir, lowered[p[l]]),
                    (#[trigger] r[k].is_dir, lowered[p[k]]),
                )
            &&& forall|k: int, l: int|
                0 <= k < l < r.len() && (#[trigger] r[k].is_dir, lowered[p[k]]) == (
                    #[trigger] r[l].is_dir,
                    lowered[p[l]],
                ) ==> p[k] < p[l]
        }
}

/// The views of a list of strings.
pub open spec fn string_views(s: Seq<String>) -> Seq<Seq<char>> {
    s.map_values(|x: String| x@)
}

/// `entries` in listing order, `lowered[i]` standing for the lower-cased
/// name of `entries[i]`: directories first, then by lowered name, entries
/// of equal rank in their original order.
pub fn sort_by_lowered(entries: Vec<SftpEntry>, lowered: Vec<String>) -> (r: Vec<SftpEntry>)
    requires
        lowered@.len() == entries@.len(),
    ensures
        is_ranked_order(entry_views(r@), entry_views(entries@), string_views(lowered@)),
{
    let ghost orig = entry_views(entries@);
    let ghost low = string_views(lowered@);
    let n = entries.len();
    let mut rest = entries;
    let mut rest_low = lowered;
    let mut out: Vec<SftpEntry> = Vec::new();
    let mut keys: Vec<(bool, Vec<char>)> = Vec::new();
    let ghost mut ks: Seq<(bool, Seq<char>)> = Seq::empty();
    let ghost mut p: Seq<int> = Seq::empty();
    let mut i: usize = 0;
    assert(entry_views(rest@) =~= orig.skip(0));
    assert(string_views(rest_low@) =~= low.skip(0));
    while i < n
        invariant
            n == orig.len(),
            n == low.len(),
            i <= n,
            entry_views(rest@) == orig.skip(i as int),
            string_views(rest_low@) == low.skip(i as int),
            out@.len() == i,
            keys@.len() == i,
            ks.len() == i,
            forall|k: int| 0 <= k < i ==> #[trigger] ks[k] == (keys@[k].0, keys@[k].1@),
            forall|k: int| 0 <= k < i ==> #[trigger] ks[k] == (entry_views(out@)[k].is_dir, low[p[k]]),
            is_index_permutation(p, i as nat),
            forall|k: int| 0 <= k < i ==> #[trigger] entry_views(out@)[k] == orig[p[k]],
            sorted_ranks(ks),
            stable_in(ks, p),
        decreases n - i,
    {
        let ghost rest_before = rest@;
        let ghost low_before = rest_low@;
        assert(entry_views(rest@).len() == rest@.len());
        assert(string_views(rest_low@).len() == rest_low@.len());
        let e = rest.remove(0);
        let lower = rest_low.remove(0);
        assert(e@ == entry_views(rest_before)[0]);
        assert(lower@ == string_views(low_before)[0]);
        assert(entry_views(rest@) =~= entry_views(rest_before).drop_first());
        assert(string_views(rest_low@) =~= string_views(low_before).drop_first());
        assert(orig.skip(i as int).drop_first() =~= orig.skip(i + 1));
        assert(low.skip(i as int).drop_first() =~= low.skip(i + 1));
        assert(orig.skip(i as int)[0] == orig[i as int]);
        assert(low.skip(i as int)[0] == low[i as int]);
        let lower_chars = chars_of(lower.as_str());
        let dir = e.is_dir;
        let ghost x = (dir, lower_chars@);
        assert(x == (orig[i as int].is_dir, low[i as int]));
        let mut pos: usize = 0;
        while pos < i && !rank_lt_exec(dir, &lower_chars, keys[pos].0, &keys[pos].1)
            invariant
                pos <= i,
                keys@.len() == i,
                ks.len() == i,
                x == (dir, lower_chars@),
                forall|k: int| 0 <= k < i ==> #[trigger] ks[k] == (keys@[k].0, keys@[k].1@),
                forall|j: int| 0 <= j < pos ==> !rank_lt(x, #[trigger] ks[j]),
            decreases i - pos,
        {
            assert(ks[pos as int] == (keys@[pos as int].0, keys@[pos as int].1@));
            pos = pos + 1;
        }
        if pos < i {
            assert(ks[pos as int] == (keys@[pos as int].0, keys@[pos as int].1@));
        }
        proof {
            lemma_insert_step(ks, p, x, pos as int);
        }
        let ghost out_before = entry_views(out@);
        let ghost keys_before = keys@;
        let ghost p_before = p;
        out.insert(pos, e);
        keys.insert(pos, (dir, lower_chars));
        proof {
            assert(entry_views(out@) =~= out_before.insert(pos as int, e@));
            ks = ks.insert(pos as int, x);
            p = p.insert(pos as int, i as int);
            assert forall|k: int| 0 <= k < i + 1 implies #[trigger] ks[k] == (
                keys@[k].0,
                keys@[k].1@,
            ) by {
                if k < pos {
                    assert(keys@[k] == keys_before[k]);
                } else if k > pos {
                    assert(keys@[k] == keys_before[k - 1]);
                }
            }
            assert forall|k: int| 0 <= k < i + 1 implies #[trigger] ks[k] == (
                entry_views(out@)[k].is_dir,
                low[p[k]],
            ) by {
                if k > pos {
                    assert(entry_views(out@)[k] == out_before[k - 1]);
                    assert(p[k] == p_before[k - 1]);
                } else if k < pos {
                    assert(p[k] == p_before[k]);
                }
            }
            assert forall|k: int| 0 <= k < i + 1 implies #[trigger] entry_views(out@)[k]
                == orig[p[k]] by {
                if k > pos {
                    assert(entry_views(out@)[k] == out_before[k - 1]);
                    assert(p[k] == p_before[k - 1]);
                } else if k < pos {
                    assert(p[k] == p_before[k]);
                }
            }
        }
        i = i + 1;
    }
    let ghost r = entry_views(out@);
    assert forall|k: int, l: int| 0 <= k < l < r.len() implies !rank_lt(
        (#[trigger] r[l].is_dir, low[p[l]]),
        (#[trigger] r[k].is_dir, low[p[k]]),
    ) by {
        assert(ks[k] == (r[k].is_dir, low[p[k]]) && ks[l] == (r[l].is_dir, low[p[l]]));
    }
    assert forall|k: int, l: int|
        0 <= k < l < r.len() && (#[trigger] r[k].is_dir, low[p[k]]) == (
            #[trigger] r[l].is_dir,
            low[p[l]],
        ) implies p[k] < p[l] by {
        assert(ks[k] == (r[k].is_dir, low[p[k]]) && ks[l] == (r[l].is_dir, low[p[l]]));
    }
    assert(is_index_permutation(p, orig.len()));
    out
}

/// `entries` in listing order: directories first, then by lower-cased
/// name, entries of equal rank in their original order.
pub fn sort_listing(entries: Vec<SftpEntry>) -> (r: Vec<SftpEntry>)
    ensures
        is_listing_order(entry_views(r@), entry_views(entries@)),
{
    let ghost orig = entry_views(entries@);
    let mut lowered: Vec<String> = Vec::new();
    let mut i: usize = 0;
    while i < entries.len()
        invariant
            i <= entries@.len(),
            orig == entry_views(entries@),
            lowered@.len() == i,
            forall|k: int| 0 <= k < i ==> #[trigger] string_views(lowered@)[k] == lowercase_of(orig[k].name),
        decreases entries@.len() - i,
    {
        let l = to_lowercase(entries[i].name.as_str());
        let ghost before = lowered@;
        lowered.push(l);
        assert forall|k: int| 0 <= k < i + 1 implies #[trigger] string_views(lowered@)[k]
            == lowercase_of(orig[k].name) by {
            if k < i {
                assert(lowered@[k] == before[k]);
                assert(string_views(before)[k] == lowercase_of(orig[k].name));
            }
        }
        i = i + 1;
    }
    let ghost low = string_views(lowered@);
    let r = sort_by_lowered(entries, lowered);
    let ghost rv = entry_views(r@);
    let ghost p = choose|p: Seq<int>|
        {
            &&& #[trigger] is_index_permutation(p, orig.len())
            &&& rv.len() == orig.len()
            &&& forall|k: int| 0 <= k < rv.len() ==> #[trigger] rv[k] == orig[p[k]]
            &&& forall|k: int, l: int|
                0 <= k < l < rv.len() ==> !rank_lt(
                    (#[trigger] rv[l].is_dir, low[p[l]]),
                    (#[trigger] rv[k].is_dir, low[p[k]]),
                )
            &&& forall|k: int, l: int|
                0 <= k < l < rv.len() && (#[trigger] rv[k].is_dir, low[p[k]]) == (
                    #[trigger] rv[l].is_dir,
                    low[p[l]],
                ) ==> p[k] < p[l]
        };
    assert forall|k: int| 0 <= k < rv.len() implies rank_of(#[trigger] rv[k]) == (
        rv[k].is_dir,
        low[p[k]],
    ) by {
        assert(0 <= p[k] < orig.len());
        assert(rv[k] == orig[p[k]]);
    }
    assert forall|k: int, l: int| 0 <= k < l < rv.len() implies !listed_before(
        #[trigger] rv[l],
        #[trigger] rv[k],
    ) by {
        assert(rank_of(rv[k]) == (rv[k].is_dir, low[p[k]]));
        assert(rank_of(rv[l]) == (rv[l].is_dir, low[p[l]]));
    }
    assert forall|k: int, l: int|
        0 <= k < l < rv.len() && rank_of(#[trigger] rv[k]) == rank_of(#[trigger] rv[l]) implies p[k]
        < p[l] by {
        assert(rank_of(rv[k]) == (rv[k].is_dir, low[p[k]]));
        assert(rank_of(rv[l]) == (rv[l].is_dir, low[p[l]]));
    }
    r
}

/// In a listing, every directory comes before every file.
pub proof fn law_directories_first(r: Seq<SftpEntryView>, s: Seq<SftpEntryView>, k: int, l: int)
    requires
        is_listing_order(r, s),
        0 <= k < l < r.len(),
        r[l].is_dir,
    ensures
        r[k].is_dir,
{
    let p = choose|p: Seq<int>|
        {
            &&& #[trigger] is_index_permutation(p, s.len())
            &&& r.len() == s.len()
            &&& forall|k: int| 0 <= k < r.len() ==> #[trigger] r[k] == s[p[k]]
            &&& forall|k: int, l: int|
                0 <= k < l < r.len() ==> !listed_before(#[trigger] r[l], #[trigger] r[k])
            &&& forall|k: int, l: int|
                0 <= k < l < r.len() && rank_of(#[trigger] r[k]) == rank_of(#[trigger] r[l])
                    ==> p[k] < p[l]
        };
    assert(!listed_before(r[l], r[k]));
}

/// A listing holds exactly the entries it was given: as many, each once.
pub proof fn law_listing_is_permutation(r: Seq<SftpEntryView>, s: Seq<SftpEntryView>)
    requires
        is_listing_order(r, s),
    ensures
        r.len() == s.len(),
        forall|k: int| 0 <= k < r.len() ==> s.contains(#[trigger] r[k]),
{
    let p = choose|p: Seq<int>|
        {
            &&& #[trigger] is_index_permutation(p, s.len())
            &&& r.len() == s.len()
            &&& forall|k: int| 0 <= k < r.len() ==> #[trigger] r[k] == s[p[k]]
            &&& forall|k: int, l: int|
                0 <= k < l < r.len() ==> !listed_before(#[trigger] r[l], #[trigger] r[k])
            &&& forall|k: int, l: int|
                0 <= k < l < r.len() && rank_of(#[trigger] r[k]) == rank_of(#[trigger] r[l])
                    ==> p[k] < p[l]
        };
    assert forall|k: int| 0 <= k < r.len() implies s.contains(#[trigger] r[k]) by {
        assert(0 <= p[k] < s.len());
        assert(s[p[k]] == r[k]);
    }
}

/// A joined remote path ends with `/` and the name.
pub proof fn law_join_remote_ends_with_name(base: Seq<char>, name: Seq<char>)
    ensures
        join_remote_spec(base, name).len() >= name.len() + 1,
        join_remote_spec(base, name).subrange(
            join_remote_spec(base, name).len() - name.len() - 1,
            join_remote_spec(base, name).len() as int,
        ) == seq!['/'] + name,
{
    let j = join_remote_spec(base, name);
    if base == seq!['/'] {
        assert(j.subrange(j.len() - name.len() - 1, j.len() as int) =~= seq!['/'] + name);
    } else {
        let t = trim_trailing_slashes(base);
        assert(j == t + seq!['/'] + name);
        assert(j.subrange(j.len() - name.len() - 1, j.len() as int) =~= seq!['/'] + name);
    }
}

/// The directory to list is never empty: a blank request lists `.`.
pub proof fn law_normalized_path_nonempty(value: Option<Seq<char>>)
    ensures
        normalize_path_spec(value).len() > 0,
{
}

/// A directory entry as the SFTP server lists it.
#[derive(Debug, Clone)]
pub struct RawDirEntry {
    pub name: String,
    pub attrs: RemoteAttrs,
}

/// The entries that the browser shows for what the server listed in
/// `dir`, in listing order.
pub open spec fn listed_entries(dir: Seq<char>, raw: Seq<RawDirEntry>) -> Seq<SftpEntryView> {
    raw.map_values(|e: RawDirEntry| entry_spec(dir, e.name@, e.attrs))
}

/// The listing of the directory `dir` from what the server returned for
/// it: one entry per file, directories first, then by lower-cased name.
pub fn listing_response(dir: String, raw: Vec<RawDirEntry>) -> (r: SftpListResponse)
    ensures
        r.path@ == dir@,
        is_listing_order(entry_views(r.entries@), listed_entries(dir@, raw@)),
{
    let ghost spec_entries = listed_entries(dir@, raw@);
    let n = raw.len();
    let mut rest = raw;
    let ghost orig = rest@;
    let mut built: Vec<SftpEntry> = Vec::new();
    let mut i: usize = 0;
    while i < n
        invariant
            n == orig.len(),
            i <= n,
            rest@ == orig.skip(i as int),
            spec_entries == listed_entries(dir@, orig),
            entry_views(built@) == spec_entries.take(i as int),
        decreases n - i,
    {
        let ghost rest_before = rest@;
        let raw_entry = rest.remove(0);
        assert(raw_entry == orig[i as int]);
        assert(rest@ =~= orig.skip(i + 1));
        let RawDirEntry { name, attrs } = raw_entry;
        let e = SftpEntry::from_listing(dir.as_str(), name, &attrs);
        assert(spec_entries[i as int] == e@);
        let ghost built_before = built@;
        built.push(e);
        assert(entry_views(built@) =~= entry_views(built_before).push(e@));
        assert(entry_views(built@) =~= spec_entries.take(i + 1));
        i = i + 1;
    }
    assert(spec_entries.take(n as int) =~= spec_entries);
    let entries = sort_listing(built);
    SftpListResponse { path: dir, entries }
}


/// Why an SFTP request is refused before anything is sent.
#[derive(Debug, Clone, Copy, PartialEq, Eq, Structural)]
pub enum SftpRequestError {
    LocalPathRequired,
    RemotePathRequired,
    FilePathRequired,
    PathRequired,
    FolderPathRequired,
    BothPathsRequired,
    SymlinkPathsRequired,
    ContentTooLarge { size: usize },
    FileTooLarge { size: usize },
    NotUtf8,
}

/// `value` trimmed, or `missing` when nothing is left.
pub fn required_path(value: &str, missing: SftpRequestError) -> (r: Result<String, SftpRequestError>)
    ensures
        trim(value@).len() == 0 ==> r == Err::<String, SftpRequestError>(missing),
        trim(value@).len() > 0 ==> r is Ok && r->Ok_0@ == trim(value@),
{
    let t = trim_str(value);
    if t.as_str().unicode_len() == 0 {
        Err(missing)
    } else {
        Ok(t)
    }
}

/// Both values trimmed, or `missing` when either is blank.
pub fn required_paths(first: &str, second: &str, missing: SftpRequestError) -> (r: Result<
    (String, String),
    SftpRequestError,
>)
    ensures
        trim(first@).len() == 0 || trim(second@).len() == 0 ==> r == Err::<
            (String, String),
            SftpRequestError,
        >(missing),
        trim(first@).len() > 0 && trim(second@).len() > 0 ==> r is Ok && r->Ok_0.0@ == trim(
            first@,
        ) && r->Ok_0.1@ == trim(second@),
{
    let a = trim_str(first);
    let b = trim_str(second);
    if a.as_str().unicode_len() == 0 || b.as_str().unicode_len() == 0 {
        Err(missing)
    } else {
        Ok((a, b))
    }
}

/// Refuses content of more than [`MAX_EDITABLE_FILE_BYTES`] bytes.
pub fn check_content_size(len: usize) -> (r: Result<(), SftpRequestError>)
    ensures
        len > MAX_EDITABLE_FILE_BYTES ==> r == Err::<(), SftpRequestError>(
            SftpRequestError::ContentTooLarge { size: len },
        ),
        len <= MAX_EDITABLE_FILE_BYTES ==> r == Ok::<(), SftpRequestError>(()),
{
    if len > MAX_EDITABLE_FILE_BYTES {
        Err(SftpRequestError::ContentTooLarge { size: len })
    } else {
        Ok(())
    }
}

/// Calls `String::from_utf8`. Claimed, as its documentation says: text
/// comes back exactly when `bytes` are valid UTF-8, and it is what they
/// encode.
#[verifier::external_body]
fn utf8_string(bytes: Vec<u8>) -> (r: Option<String>)
    ensures
        r is Some <==> vstd::utf8::valid_utf8(bytes@),
        r is Some ==> r->0@ == vstd::utf8::decode_utf8(bytes@),
{
    String::from_utf8(bytes).ok()
}

/// The text of a remote file opened for editing: refused when larger than
/// [`MAX_EDITABLE_FILE_BYTES`] or not valid UTF-8.
pub fn decode_editable(bytes: Vec<u8>) -> (r: Result<String, SftpRequestError>)
    ensures
        bytes@.len() > MAX_EDITABLE_FILE_BYTES ==> r == Err::<String, SftpRequestError>(
            SftpRequestError::FileTooLarge { size: bytes@.len() as usize },
        ),
        bytes@.len() <= MAX_EDITABLE_FILE_BYTES && !vstd::utf8::valid_utf8(bytes@) ==> r == Err::<
            String,
            SftpRequestError,
        >(SftpRequestError::NotUtf8),
        bytes@.len() <= MAX_EDITABLE_FILE_BYTES && vstd::utf8::valid_utf8(bytes@) ==> r is Ok
            && r->Ok_0@ == vstd::utf8::decode_utf8(bytes@),
{
    let len = bytes.len();
    if len > MAX_EDITABLE_FILE_BYTES {
        return Err(SftpRequestError::FileTooLarge { size: len });
    }
    match utf8_string(bytes) {
        Some(s) => Ok(s),
        None => Err(SftpRequestError::NotUtf8),
    }
}

/// The entries `.` and `..` of a directory, which transfers skip.
pub fn is_dot_entry(name: &str) -> (b: bool)
    ensures
        b == (name@ == seq!['.'] || name@ == seq!['.', '.']),
{
    let v = chars_of(name);
    let b = (v.len() == 1 && v[0] == '.') || (v.len() == 2 && v[0] == '.' && v[1] == '.');
    assert(b == (name@ =~= seq!['.'] || name@ =~= seq!['.', '.']));
    b
}

/// The path of `name` relative to a transfer's base directory, given the
/// relative path `rel` of its parent (empty for the base itself).
pub fn child_relative_path(rel: &str, name: &str) -> (p: String)
    ensures
        rel@.len() == 0 ==> p@ == name@,
        rel@.len() > 0 ==> p@ == rel@ + seq!['/'] + name@,
{
    if rel.unicode_len() == 0 {
        name.to_owned()
    } else {
        let mut p = rel.to_owned();
        p.append(slash());
        p.append(name);
        p
    }
}

/// A local relative path with its `\` separators turned into the `/` of
/// remote paths.
pub fn to_remote_separators(rel: &str) -> (p: String)
    ensures
        p@ == replace_char_spec(rel@, '\\', seq!['/']),
{
    replace_char(rel, '\\', slash())
}

/// The remote path that a local file at relative path `rel` is uploaded
/// to, inside the remote directory `remote_dir`.
pub fn upload_target(remote_dir: &str, rel: &str) -> (p: String)
    ensures
        p@ == join_remote_spec(remote_dir@, replace_char_spec(rel@, '\\', seq!['/'])),
{
    let r = to_remote_separators(rel);
    join_remote(remote_dir, r.as_str())
}


/// The path of `name` relative to a transfer's base, its parent being at
/// `rel` (empty for the base itself).
pub open spec fn child_rel_spec(rel: Seq<char>, name: Seq<char>) -> Seq<char> {
    if rel.len() == 0 {
        name
    } else {
        rel + seq!['/'] + name
    }
}

/// What a download does with one entry of a remote directory.
#[derive(Debug)]
pub enum DownloadAction {
    /// `.` or `..`: nothing.
    Skip,
    /// A directory: create it locally at `local_rel` (relative to the local
    /// base); its entries are visited later.
    Descend { local_rel: String },
    /// A file: copy `remote_path` to `local_rel` (relative to the local
    /// base), creating its parent directories.
    Fetch { remote_path: String, local_rel: String },
}

/// A download of a remote directory tree: the remote base and the
/// directories still to list, each with its path relative to the base.
#[derive(Debug)]
pub struct DownloadWalk {
    pub base: String,
    pub pending: Vec<(String, String)>,
}

/// The views of the directories still to list.
pub open spec fn pending_view(p: Seq<(String, String)>) -> Seq<(Seq<char>, Seq<char>)> {
    p.map_values(|t: (String, String)| (t.0@, t.1@))
}

impl DownloadWalk {
    /// The walk of the tree at `base`: only the base is pending.
    pub fn start(base: String) -> (w: Self)
        ensures
            w.base@ == base@,
            pending_view(w.pending@) == seq![(base@, Seq::<char>::empty())],
    {
        let mut pending: Vec<(String, String)> = Vec::new();
        pending.push((base.clone(), String::new()));
        assert(pending_view(pending@) =~= seq![(base@, Seq::<char>::empty())]);
        DownloadWalk { base, pending }
    }

    /// The directory to list next, the one pending last; none when the walk
    /// is over.
    pub fn next_dir(&mut self) -> (d: Option<(String, String)>)
        ensures
            final(self).base == old(self).base,
            old(self).pending@.len() == 0 ==> d is None && final(self).pending@ == old(self).pending@,
            old(self).pending@.len() > 0 ==> d == Some(old(self).pending@.last())
                && final(self).pending@ == old(self).pending@.drop_last(),
    {
        self.pending.pop()
    }

    /// Visits the entry `name` with `attrs` of the directory at `rel`:
    /// `.` and `..` are skipped, a directory is queued and created locally,
    /// a file is fetched. Local paths use `separator` between components.
    pub fn visit(&mut self, rel: &str, name: &str, attrs: &RemoteAttrs, separator: &str) -> (a: DownloadAction)
        ensures
            final(self).base == old(self).base,
            (name@ == seq!['.'] || name@ == seq!['.', '.']) ==> a is Skip && final(self).pending@
                == old(self).pending@,
            !(name@ == seq!['.'] || name@ == seq!['.', '.']) ==> {
                let child = child_rel_spec(rel@, name@);
                let remote = join_remote_spec(old(self).base@, child);
                let local = replace_char_spec(child, '/', separator@);
                if file_type_bits(mode_of(*attrs)) == 0x4000 {
                    &&& a is Descend
                    &&& a->Descend_local_rel@ == local
                    &&& pending_view(final(self).pending@) == pending_view(old(self).pending@).push(
                        (remote, child),
                    )
                } else {
                    &&& a is Fetch
                    &&& a->Fetch_remote_path@ == remote
                    &&& a->Fetch_local_rel@ == local
                    &&& final(self).pending@ == old(self).pending@
                }
            },
    {
        if is_dot_entry(name) {
            return DownloadAction::Skip;
        }
        let child = child_relative_path(rel, name);
        assert(child@ == child_rel_spec(rel@, name@));
        let remote_path = join_remote(self.base.as_str(), child.as_str());
        let local_rel = replace_char(child.as_str(), '/', separator);
        if attrs.is_dir() {
            let ghost before = self.pending@;
            let ghost entry = (remote_path@, child@);
            self.pending.push((remote_path, child));
            assert(pending_view(self.pending@) =~= pending_view(before).push(entry));
            DownloadAction::Descend { local_rel }
        } else {
            DownloadAction::Fetch { remote_path, local_rel }
        }
    }
}

/// What an upload does with one entry of a local directory.
#[derive(Debug)]
pub enum UploadAction {
    /// A directory: create `remote_path` and visit its entries later.
    CreateAndDescend { remote_path: String },
    /// A file: copy it to `remote_path`.
    Upload { remote_path: String },
    /// Neither a directory nor a file: nothing.
    Skip,
}

/// What an upload into the remote directory `remote_dir` does with the
/// local entry at relative path `rel`, a directory when `is_dir`, a regular
/// file when `is_file`.
pub fn upload_step(remote_dir: &str, rel: &str, is_dir: bool, is_file: bool) -> (a: UploadAction)
    ensures
        is_dir ==> a is CreateAndDescend && a->CreateAndDescend_remote_path@ == join_remote_spec(
            remote_dir@,
            replace_char_spec(rel@, '\\', seq!['/']),
        ),
        !is_dir && is_file ==> a is Upload && a->Upload_remote_path@ == join_remote_spec(
            remote_dir@,
            replace_char_spec(rel@, '\\', seq!['/']),
        ),
        !is_dir && !is_file ==> a is Skip,
{
    let remote_path = upload_target(remote_dir, rel);
    if is_dir {
        UploadAction::CreateAndDescend { remote_path }
    } else if is_file {
        UploadAction::Upload { remote_path }
    } else {
        UploadAction::Skip
    }
}

} // verus!
