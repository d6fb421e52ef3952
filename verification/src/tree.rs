use vstd::prelude::*;
use vstd::string::*;
use crate::errors::{is_io_error, is_path_error, MikuError};
use crate::path_ops::{
    is_markdown_file, join_path, lower_code, spec_is_markdown, spec_join,
};

verus! {

broadcast use vstd::std_specs::vec::group_vec_axioms;

/// A node of a workspace's file tree. In a built tree `children` is
/// present exactly on directory nodes, ordered and never empty.
#[derive(Debug)]
pub struct WorkspaceFile {
    /// Final path segment of the entry.
    pub name: String,
    /// Absolute path of the entry.
    pub path: String,
    pub is_directory: bool,
    /// For directories, the built subtree; `None` on files and on
    /// directories whose listing could not be read.
    pub children: Option<Vec<WorkspaceFile>>,
}

/// A directory entry as the filesystem reports it: a name, and for a
/// directory the raw listing below it, or `None` where reading that
/// listing failed. Such a failure is confined to its subtree: the entry
/// is treated as holding no content, and its siblings are unaffected.
#[derive(Debug)]
pub enum RawEntry {
    File { name: String },
    Dir { name: String, listing: Option<Vec<RawEntry>> },
}

/// The name of a raw entry.
pub open spec fn entry_name(e: RawEntry) -> Seq<char> {
    match e {
        RawEntry::File { name } => name@,
        RawEntry::Dir { name, .. } => name@,
    }
}

/// Entries skipped entirely: hidden names (leading dot) and the reserved
/// dependency-cache and build-output directory names.
pub open spec fn excluded_name(n: Seq<char>) -> bool {
    (n.len() > 0 && n[0] == '.') || n == "node_modules"@ || n == "target"@
}

/// Character-for-character string equality.
fn str_eq_chars(a: &str, b: &str) -> (r: bool)
    ensures
        r == (a@ == b@),
{
    let alen = a.unicode_len();
    let blen = b.unicode_len();
    if alen != blen {
        return false;
    }
    let mut i: usize = 0;
    while i < alen
        invariant
            i <= alen,
            alen == a@.len(),
            alen == b@.len(),
            forall|t: int| 0 <= t < i ==> a@[t] == b@[t],
        decreases alen - i,
    {
        if a.get_char(i) != b.get_char(i) {
            return false;
        }
        i += 1;
    }
    proof {
        assert(a@ =~= b@);
    }
    true
}

/// Whether a directory entry is skipped without being looked at: hidden
/// (leading dot), or named "node_modules" or "target".
pub fn is_excluded_entry(name: &str) -> (r: bool)
    ensures
        r == excluded_name(name@),
{
    if name.unicode_len() > 0 && name.get_char(0) == '.' {
        return true;
    }
    str_eq_chars(name, "node_modules") || str_eq_chars(name, "target")
}

/// Lexicographic order on sequences of code points.
pub open spec fn lex_le_u(x: Seq<u32>, y: Seq<u32>) -> bool
    decreases x.len(),
{
    if x.len() == 0 {
        true
    } else if y.len() == 0 {
        false
    } else if x[0] < y[0] {
        true
    } else if x[0] == y[0] {
        lex_le_u(x.drop_first(), y.drop_first())
    } else {
        false
    }
}

/// The ASCII-lowered code points of a name.
pub open spec fn folded(a: Seq<char>) -> Seq<u32> {
    a.map_values(|c: char| lower_code(c))
}

/// Lexicographic order on the characters themselves.
pub open spec fn lex_le_c(x: Seq<char>, y: Seq<char>) -> bool
    decreases x.len(),
{
    if x.len() == 0 {
        true
    } else if y.len() == 0 {
        false
    } else if x[0] < y[0] {
        true
    } else if x[0] == y[0] {
        lex_le_c(x.drop_first(), y.drop_first())
    } else {
        false
    }
}

/// Name order: case-insensitive lexicographic first (ASCII folding), and
/// between names that fold alike, lexicographic by the characters
/// themselves — the tie-break makes the order antisymmetric, so an
/// ordered listing of distinct names admits exactly one arrangement.
pub open spec fn name_le(a: Seq<char>, b: Seq<char>) -> bool {
    if folded(a) == folded(b) {
        lex_le_c(a, b)
    } else {
        lex_le_u(folded(a), folded(b))
    }
}

/// The sibling order: directories before files; within one kind, by
/// `name_le`.
pub open spec fn node_le(x: WorkspaceFile, y: WorkspaceFile) -> bool {
    if x.is_directory != y.is_directory {
        x.is_directory
    } else {
        name_le(x.name@, y.name@)
    }
}

/// Siblings stand in order: every earlier node is `node_le` every later
/// one.
pub open spec fn listing_sorted(s: Seq<WorkspaceFile>) -> bool {
    forall|i: int, j: int| 0 <= i < j < s.len() ==> node_le(#[trigger] s[i], #[trigger] s[j])
}

proof fn lemma_lex_le_u_total(x: Seq<u32>, y: Seq<u32>)
    ensures
        lex_le_u(x, y) || lex_le_u(y, x),
    decreases x.len(),
{
    if x.len() > 0 && y.len() > 0 && x[0] == y[0] {
        lemma_lex_le_u_total(x.drop_first(), y.drop_first());
    }
}

proof fn lemma_lex_le_u_trans(x: Seq<u32>, y: Seq<u32>, z: Seq<u32>)
    requires
        lex_le_u(x, y),
        lex_le_u(y, z),
    ensures
        lex_le_u(x, z),
    decreases x.len(),
{
    if x.len() > 0 && z.len() > 0 {
        if y.len() > 0 && x[0] == y[0] && y[0] == z[0] {
            lemma_lex_le_u_trans(x.drop_first(), y.drop_first(), z.drop_first());
        }
    }
}

proof fn lemma_lex_le_u_antisym(x: Seq<u32>, y: Seq<u32>)
    requires
        lex_le_u(x, y),
        lex_le_u(y, x),
    ensures
        x == y,
    decreases x.len(),
{
    if x.len() == 0 {
        assert(x =~= y);
    } else {
        lemma_lex_le_u_antisym(x.drop_first(), y.drop_first());
        assert forall|i: int| 0 <= i < x.len() implies x[i] == y[i] by {
            if i > 0 {
                assert(x.drop_first()[i - 1] == y.drop_first()[i - 1]);
            }
        }
        assert(x =~= y);
    }
}

proof fn lemma_lex_le_c_refl(x: Seq<char>)
    ensures
        lex_le_c(x, x),
    decreases x.len(),
{
    if x.len() > 0 {
        lemma_lex_le_c_refl(x.drop_first());
    }
}

proof fn lemma_lex_le_c_total(x: Seq<char>, y: Seq<char>)
    ensures
        lex_le_c(x, y) || lex_le_c(y, x),
    decreases x.len(),
{
    if x.len() > 0 && y.len() > 0 && x[0] == y[0] {
        lemma_lex_le_c_total(x.drop_first(), y.drop_first());
    }
}

proof fn lemma_lex_le_c_trans(x: Seq<char>, y: Seq<char>, z: Seq<char>)
    requires
        lex_le_c(x, y),
        lex_le_c(y, z),
    ensures
        lex_le_c(x, z),
    decreases x.len(),
{
    if x.len() > 0 && z.len() > 0 {
        if y.len() > 0 && x[0] == y[0] && y[0] == z[0] {
            lemma_lex_le_c_trans(x.drop_first(), y.drop_first(), z.drop_first());
        }
    }
}

proof fn lemma_lex_le_c_antisym(x: Seq<char>, y: Seq<char>)
    requires
        lex_le_c(x, y),
        lex_le_c(y, x),
    ensures
        x == y,
    decreases x.len(),
{
    if x.len() == 0 {
        assert(x =~= y);
    } else {
        lemma_lex_le_c_antisym(x.drop_first(), y.drop_first());
        assert forall|i: int| 0 <= i < x.len() implies x[i] == y[i] by {
            if i > 0 {
                assert(x.drop_first()[i - 1] == y.drop_first()[i - 1]);
            }
        }
        assert(x =~= y);
    }
}

/// The name order is total.
pub proof fn lemma_name_le_total(a: Seq<char>, b: Seq<char>)
    ensures
        name_le(a, b) || name_le(b, a),
{
    if folded(a) == folded(b) {
        lemma_lex_le_c_total(a, b);
    } else {
        lemma_lex_le_u_total(folded(a), folded(b));
    }
}

/// The name order is transitive.
pub proof fn lemma_name_le_trans(a: Seq<char>, b: Seq<char>, c: Seq<char>)
    requires
        name_le(a, b),
        name_le(b, c),
    ensures
        name_le(a, c),
{
    let fa = folded(a);
    let fb = folded(b);
    let fc = folded(c);
    if fa == fb && fb == fc {
        lemma_lex_le_c_trans(a, b, c);
    } else if fa != fb && fb != fc {
        lemma_lex_le_u_trans(fa, fb, fc);
        if fa == fc {
            lemma_lex_le_u_antisym(fa, fb);
        }
    }
}

/// Law: the name order is antisymmetric — two names each at most the
/// other are the same name.
pub proof fn lemma_name_le_antisym(a: Seq<char>, b: Seq<char>)
    requires
        name_le(a, b),
        name_le(b, a),
    ensures
        a == b,
{
    if folded(a) == folded(b) {
        lemma_lex_le_c_antisym(a, b);
    } else {
        lemma_lex_le_u_antisym(folded(a), folded(b));
    }
}

/// The name order is reflexive.
pub proof fn lemma_name_le_refl(a: Seq<char>)
    ensures
        name_le(a, a),
{
    lemma_lex_le_c_refl(a);
}

/// The sibling order is total.
pub proof fn lemma_node_le_total(x: WorkspaceFile, y: WorkspaceFile)
    ensures
        node_le(x, y) || node_le(y, x),
{
    lemma_name_le_total(x.name@, y.name@);
}

/// The sibling order is transitive.
pub proof fn lemma_node_le_trans(x: WorkspaceFile, y: WorkspaceFile, z: WorkspaceFile)
    requires
        node_le(x, y),
        node_le(y, z),
    ensures
        node_le(x, z),
{
    if x.is_directory == y.is_directory && y.is_directory == z.is_directory {
        lemma_name_le_trans(x.name@, y.name@, z.name@);
    }
}

/// Law: the sibling order is antisymmetric up to kind and name, so a
/// sorted listing with distinct names is determined — the built listing
/// does not depend on the order in which the raw entries were
/// enumerated.
pub proof fn lemma_node_le_antisym(x: WorkspaceFile, y: WorkspaceFile)
    requires
        node_le(x, y),
        node_le(y, x),
    ensures
        x.is_directory == y.is_directory,
        x.name@ == y.name@,
{
    if x.is_directory == y.is_directory {
        lemma_name_le_antisym(x.name@, y.name@);
    }
}

/// The name order, executably.
fn name_le_exec(a: &str, b: &str) -> (r: bool)
    ensures
        r == name_le(a@, b@),
{
    let ghost fa = folded(a@);
    let ghost fb = folded(b@);
    let alen = a.unicode_len();
    let blen = b.unicode_len();
    let mut i: usize = 0;
    proof {
        assert(fa.skip(0) =~= fa);
        assert(fb.skip(0) =~= fb);
    }
    while i < alen && i < blen
        invariant
            i <= alen,
            i <= blen,
            alen == a@.len(),
            blen == b@.len(),
            fa == folded(a@),
            fb == folded(b@),
            forall|t: int| 0 <= t < i ==> fa[t] == fb[t],
            lex_le_u(fa, fb) == lex_le_u(fa.skip(i as int), fb.skip(i as int)),
        decreases alen - i,
    {
        let ca = crate::path_ops::lower_char_code(a.get_char(i));
        let cb = crate::path_ops::lower_char_code(b.get_char(i));
        proof {
            assert(fa[i as int] == lower_code(a@[i as int]));
            assert(fb[i as int] == lower_code(b@[i as int]));
            assert(fa.skip(i as int)[0] == fa[i as int]);
            assert(fb.skip(i as int)[0] == fb[i as int]);
            assert(fa.skip(i as int).drop_first() =~= fa.skip(i + 1));
            assert(fb.skip(i as int).drop_first() =~= fb.skip(i + 1));
        }
        if ca != cb {
            proof {
                assert(fa != fb);
            }
            return ca < cb;
        }
        i += 1;
    }
    if alen != blen {
        proof {
            assert(fa.len() != fb.len());
            if i >= alen {
                assert(fa.skip(i as int).len() == 0);
            } else {
                assert(fb.skip(i as int).len() == 0);
                assert(fa.skip(i as int).len() > 0);
            }
        }
        return alen < blen;
    }
    proof {
        assert(fa =~= fb);
    }
    let mut k: usize = 0;
    proof {
        assert(a@.skip(0) =~= a@);
        assert(b@.skip(0) =~= b@);
    }
    while k < alen
        invariant
            k <= alen,
            alen == a@.len(),
            alen == b@.len(),
            fa == folded(a@),
            fb == folded(b@),
            fa == fb,
            lex_le_c(a@, b@) == lex_le_c(a@.skip(k as int), b@.skip(k as int)),
        decreases alen - k,
    {
        let ca = a.get_char(k);
        let cb = b.get_char(k);
        proof {
            assert(a@.skip(k as int)[0] == a@[k as int]);
            assert(b@.skip(k as int)[0] == b@[k as int]);
            assert(a@.skip(k as int).drop_first() =~= a@.skip(k + 1));
            assert(b@.skip(k as int).drop_first() =~= b@.skip(k + 1));
        }
        if ca != cb {
            return ca < cb;
        }
        k += 1;
    }
    proof {
        assert(a@.skip(alen as int).len() == 0);
    }
    true
}

/// The sibling order, executably.
fn node_le_exec(x: &WorkspaceFile, y: &WorkspaceFile) -> (r: bool)
    ensures
        r == node_le(*x, *y),
{
    if x.is_directory != y.is_directory {
        x.is_directory
    } else {
        name_le_exec(x.name.as_str(), y.name.as_str())
    }
}

/// A raw entry earns a node in a listing: a content file, or a readable
/// directory that transitively holds one; excluded names, unreadable
/// directories, and directories with no content beneath them never
/// qualify, at any level.
pub open spec fn qualifies(e: RawEntry) -> bool
    decreases e,
{
    match e {
        RawEntry::File { name } => !excluded_name(name@) && spec_is_markdown(name@),
        RawEntry::Dir { name, listing } => match listing {
            None => false,
            Some(sub) => !excluded_name(name@) && (exists|j: int|
                0 <= j < sub@.len() && qualifies(#[trigger] sub@[j])),
        },
    }
}

/// The node `w` is exactly what the raw entry `e`, listed under the
/// directory `parent`, builds to: right name, right path, right kind, and
/// for a directory a fully correct, non-empty subtree.
pub open spec fn entry_yields(
    e: RawEntry,
    parent: Seq<char>,
    w: WorkspaceFile,
) -> bool
    decreases e, 0int,
{
    match e {
        RawEntry::File { name } => {
            &&& !excluded_name(name@)
            &&& spec_is_markdown(name@)
            &&& w.name@ == name@
            &&& w.path@ == spec_join(parent, name@)
            &&& !w.is_directory
            &&& w.children is None
        },
        RawEntry::Dir { name, listing } => {
            &&& !excluded_name(name@)
            &&& w.name@ == name@
            &&& w.path@ == spec_join(parent, name@)
            &&& w.is_directory
            &&& match listing {
                None => false,
                Some(sub) => {
                    &&& w.children is Some
                    &&& listing_ok(sub@, spec_join(parent, name@), w.children->0@)
                    &&& w.children->0@.len() > 0
                },
            }
        },
    }
}

/// The node `w` is built from one of the raw entries.
pub open spec fn node_from(
    entries: Seq<RawEntry>,
    parent: Seq<char>,
    w: WorkspaceFile,
) -> bool
    decreases entries, 0int,
{
    exists|j: int| 0 <= j < entries.len() && entry_yields(#[trigger] entries[j], parent, w)
}

/// Some node of `result` carries the name `n`.
pub open spec fn name_in(result: Seq<WorkspaceFile>, n: Seq<char>) -> bool {
    exists|i: int| 0 <= i < result.len() && (#[trigger] result[i]).name@ == n
}

/// `result` is a correct listing of the raw entries `entries` of the
/// directory `parent`: ordered, sibling names distinct, every node built
/// from one of the entries, and every qualifying entry represented.
pub open spec fn listing_ok(
    entries: Seq<RawEntry>,
    parent: Seq<char>,
    result: Seq<WorkspaceFile>,
) -> bool
    decreases entries, 1int,
{
    &&& listing_sorted(result)
    &&& (forall|i1: int, i2: int|
        0 <= i1 < i2 < result.len() ==> (#[trigger] result[i1]).name@ != (
        #[trigger] result[i2]).name@)
    &&& (forall|i: int|
        0 <= i < result.len() ==> node_from(entries, parent, #[trigger] result[i]))
    &&& (forall|j: int|
        0 <= j < entries.len() && qualifies(#[trigger] entries[j]) ==> name_in(
            result,
            entry_name(entries[j]),
        ))
}

/// The raw listing below a directory entry is well formed.
pub open spec fn entry_sub_wf(e: RawEntry) -> bool
    decreases e,
{
    match e {
        RawEntry::Dir { listing: Some(sub), .. } => raw_wf(sub@),
        _ => true,
    }
}

/// A raw tree is well formed the way a real directory tree is: sibling
/// names are distinct, at every level.
pub open spec fn raw_wf(entries: Seq<RawEntry>) -> bool
    decreases entries,
{
    &&& (forall|a: int, b: int|
        0 <= a < b < entries.len() ==> entry_name(#[trigger] entries[a]) != entry_name(
            #[trigger] entries[b],
        ))
    &&& (forall|j: int| 0 <= j < entries.len() ==> entry_sub_wf(#[trigger] entries[j]))
}

/// What `entry_yields` pins down about the node itself.
pub proof fn lemma_yields_name(e: RawEntry, parent: Seq<char>, w: WorkspaceFile)
    requires
        entry_yields(e, parent, w),
    ensures
        w.name@ == entry_name(e),
        !excluded_name(entry_name(e)),
        w.path@ == spec_join(parent, entry_name(e)),
{
}

/// A built node always comes from a qualifying entry.
pub proof fn lemma_yields_implies_qualifies(e: RawEntry, parent: Seq<char>, w: WorkspaceFile)
    requires
        entry_yields(e, parent, w),
    ensures
        qualifies(e),
    decreases e,
{
    match e {
        RawEntry::File { .. } => {},
        RawEntry::Dir { name, listing } => {
            match listing {
                None => {},
                Some(sub) => {
                    let cp = spec_join(parent, name@);
                    let cs = w.children->0@;
                    assert(cs.len() > 0);
                    let wc = cs[0];
                    assert(node_from(sub@, cp, wc));
                    let j = choose|j: int|
                        0 <= j < sub@.len() && entry_yields(#[trigger] sub@[j], cp, wc);
                    lemma_yields_implies_qualifies(sub@[j], cp, wc);
                },
            }
        },
    }
}

/// Being built from one of the first `j1` entries is being built from one
/// of the first `j2`, for `j1 <= j2`.
proof fn lemma_node_from_grow(
    entries: Seq<RawEntry>,
    j1: int,
    j2: int,
    parent: Seq<char>,
    w: WorkspaceFile,
)
    requires
        0 <= j1 <= j2 <= entries.len(),
        node_from(entries.take(j1), parent, w),
    ensures
        node_from(entries.take(j2), parent, w),
{
    let s1 = entries.take(j1);
    let s2 = entries.take(j2);
    let j = choose|j: int|
        0 <= j < s1.len() && entry_yields(#[trigger] s1[j], parent, w);
    assert(s2[j] == s1[j]);
    assert(entry_yields(s2[j], parent, w));
}

/// A name found in a listing is still found after an insertion.
proof fn lemma_name_in_insert(s: Seq<WorkspaceFile>, pos: int, w: WorkspaceFile, n: Seq<char>)
    requires
        0 <= pos <= s.len(),
        name_in(s, n),
    ensures
        name_in(s.insert(pos, w), n),
{
    let i0 = choose|i0: int| 0 <= i0 < s.len() && (#[trigger] s[i0]).name@ == n;
    s.insert_ensures(pos, w);
    if i0 < pos {
        assert(s.insert(pos, w)[i0].name@ == n);
    } else {
        assert(s.insert(pos, w)[i0 + 1].name@ == n);
    }
}

/// Position in an ordered listing at which `w` belongs.
fn find_insert_pos(out: &Vec<WorkspaceFile>, w: &WorkspaceFile) -> (pos: usize)
    ensures
        pos <= out@.len(),
        forall|t: int| 0 <= t < pos ==> node_le(#[trigger] out@[t], *w),
        pos < out@.len() ==> !node_le(out@[pos as int], *w),
{
    let mut pos: usize = 0;
    loop
        invariant
            pos <= out@.len(),
            forall|t: int| 0 <= t < pos ==> node_le(#[trigger] out@[t], *w),
        decreases out@.len() - pos,
    {
        if pos >= out.len() {
            return pos;
        }
        if !node_le_exec(&out[pos], w) {
            return pos;
        }
        pos += 1;
    }
}

/// Builds the node for one raw entry of the directory `parent`, or prunes
/// it: excluded names, non-content files, and empty or unreadable
/// directories yield nothing.
fn build_node(e: &RawEntry, parent: &str) -> (r: Option<WorkspaceFile>)
    requires
        entry_sub_wf(*e),
    ensures
        (r is Some) == qualifies(*e),
        r is Some ==> entry_yields(*e, parent@, r->0),
    decreases *e,
{
    match e {
        RawEntry::File { name } => {
            if is_excluded_entry(name.as_str()) {
                return None;
            }
            if !is_markdown_file(name.as_str()) {
                return None;
            }
            Some(
                WorkspaceFile {
                    name: name.clone(),
                    path: join_path(parent, name.as_str()),
                    is_directory: false,
                    children: None,
                },
            )
        },
        RawEntry::Dir { name, listing } => {
            if is_excluded_entry(name.as_str()) {
                return None;
            }
            match listing {
                None => None,
                Some(sub) => {
                    let child_path = join_path(parent, name.as_str());
                    proof {
                        assert(decreases_to!(*e => sub@));
                    }
                    let cs = build_listing(sub, child_path.as_str());
                    if cs.len() > 0 {
                        let w = WorkspaceFile {
                            name: name.clone(),
                            path: child_path,
                            is_directory: true,
                            children: Some(cs),
                        };
                        proof {
                            lemma_yields_implies_qualifies(*e, parent@, w);
                        }
                        Some(w)
                    } else {
                        proof {
                            assert(!qualifies(*e)) by {
                                if qualifies(*e) {
                                    let jq = choose|jq: int|
                                        0 <= jq < sub@.len() && qualifies(#[trigger] sub@[jq]);
                                    assert(qualifies(sub@[jq]));
                                    assert(listing_ok(sub@, child_path@, cs@));
                                    assert(name_in(cs@, entry_name(sub@[jq])));
                                }
                            }
                        }
                        None
                    }
                },
            }
        },
    }
}

/// Builds the ordered listing of a directory from its raw entries:
/// excluded names are skipped, only content files are kept, empty and
/// unreadable directories are pruned, and siblings come out sorted,
/// directories before files and case-insensitively by name within each
/// kind.
#[verifier::rlimit(60)]
pub fn build_listing(entries: &Vec<RawEntry>, parent: &str) -> (r: Vec<
    WorkspaceFile,
>)
    requires
        raw_wf(entries@),
    ensures
        listing_ok(entries@, parent@, r@),
    decreases entries@,
{
    let mut out: Vec<WorkspaceFile> = Vec::new();
    let mut j: usize = 0;
    while j < entries.len()
        invariant
            raw_wf(entries@),
            j <= entries@.len(),
            listing_sorted(out@),
            forall|i1: int, i2: int|
                0 <= i1 < i2 < out@.len() ==> (#[trigger] out@[i1]).name@ != (
                #[trigger] out@[i2]).name@,
            forall|i: int|
                0 <= i < out@.len() ==> node_from(
                    entries@.take(j as int),
                    parent@,
                    #[trigger] out@[i],
                ),
            forall|jj: int|
                0 <= jj < j && qualifies(#[trigger] entries@[jj]) ==> name_in(
                    out@,
                    entry_name(entries@[jj]),
                ),
        decreases entries@.len() - j,
    {
        proof {
            assert(entry_sub_wf(entries@[j as int]));
        }
        let node = build_node(&entries[j], parent);
        match node {
            None => {
                proof {
                    assert(!qualifies(entries@[j as int]));
                    assert forall|i: int| 0 <= i < out@.len() implies node_from(
                        entries@.take(j + 1),
                        parent@,
                        #[trigger] out@[i],
                    ) by {
                        lemma_node_from_grow(
                            entries@,
                            j as int,
                            j + 1,
                            parent@,
                            out@[i],
                        );
                    }
                }
            },
            Some(w) => {
                let ghost before = out@;
                let pos = find_insert_pos(&out, &w);
                out.insert(pos, w);
                proof {
                    let s = before.insert(pos as int, w);
                    assert(out@ == s);
                    before.insert_ensures(pos as int, w);
                    assert(s.len() == before.len() + 1);
                    assert(forall|t: int| 0 <= t < pos ==> #[trigger] s[t] == before[t]);
                    assert(s[pos as int] == w);
                    assert forall|t: int| pos < t < s.len() implies #[trigger] s[t] == before[t
                        - 1] by {
                        assert(s[(t - 1) + 1] == before[t - 1]);
                    }
                    // The new node sits no earlier than anything before it
                    // and no later than anything after it.
                    if pos < before.len() {
                        lemma_node_le_total(before[pos as int], w);
                        assert forall|t: int| pos <= t < before.len() implies node_le(
                            w,
                            #[trigger] before[t],
                        ) by {
                            if t > pos {
                                assert(node_le(before[pos as int], before[t]));
                                lemma_node_le_trans(w, before[pos as int], before[t]);
                            }
                        }
                    }
                    // Order is kept on both sides of the insertion point.
                    assert forall|i1: int, i2: int|
                        0 <= i1 < i2 < s.len() implies node_le(s[i1], s[i2]) by {
                        if i1 == pos as int {
                            assert(s[i2] == before[i2 - 1]);
                            assert(node_le(w, before[i2 - 1]));
                        } else if i2 == pos as int {
                            assert(s[i1] == before[i1]);
                            assert(node_le(before[i1], w));
                        } else if i1 < pos as int && i2 > pos as int {
                            assert(node_le(before[i1], before[i2 - 1]));
                        }
                    }
                    // Every node still stems from one of the entries seen.
                    assert(entry_yields(entries@[j as int], parent@, w));
                    assert(entries@.take(j + 1)[j as int] == entries@[j as int]);
                    assert forall|i: int| 0 <= i < s.len() implies node_from(
                        entries@.take(j + 1),
                        parent@,
                        #[trigger] s[i],
                    ) by {
                        if i == pos as int {
                            assert(s[i] == w);
                            assert(node_from(entries@.take(j + 1), parent@, w));
                        } else {
                            let b = if i < pos as int { i } else { i - 1 };
                            assert(s[i] == before[b]);
                            lemma_node_from_grow(
                                entries@,
                                j as int,
                                j + 1,
                                parent@,
                                before[b],
                            );
                        }
                    }
                    // Every qualifying entry seen so far is still represented.
                    lemma_yields_name(entries@[j as int], parent@, w);
                    assert forall|jj: int|
                        0 <= jj < j + 1 && qualifies(
                            #[trigger] entries@[jj],
                        ) implies name_in(s, entry_name(entries@[jj])) by {
                        if jj == j as int {
                            assert(s[pos as int] == w);
                            assert(name_in(s, entry_name(entries@[jj])));
                        } else {
                            lemma_name_in_insert(
                                before,
                                pos as int,
                                w,
                                entry_name(entries@[jj]),
                            );
                        }
                    }
                    // Sibling names stay distinct: the new node carries the
                    // name of an entry not seen before.
                    assert forall|t: int| 0 <= t < before.len() implies (#[trigger] before[t]).name@
                        != w.name@ by {
                        assert(node_from(entries@.take(j as int), parent@, before[t]));
                        let jj = choose|jj: int|
                            0 <= jj < entries@.take(j as int).len() && entry_yields(
                                #[trigger] entries@.take(j as int)[jj],
                                parent@,
                                before[t],
                            );
                        lemma_yields_name(entries@[jj], parent@, before[t]);
                        assert(entry_name(entries@[jj]) != entry_name(entries@[j as int]));
                    }
                    assert forall|i1: int, i2: int|
                        0 <= i1 < i2 < s.len() implies (#[trigger] s[i1]).name@ != (
                        #[trigger] s[i2]).name@ by {
                        if i1 == pos as int {
                            assert(s[i2] == before[i2 - 1]);
                        } else if i2 == pos as int {
                            assert(s[i1] == before[i1]);
                        } else {
                            let b1 = if i1 < pos as int { i1 } else { i1 - 1 };
                            let b2 = if i2 < pos as int { i2 } else { i2 - 1 };
                            assert(s[i1] == before[b1]);
                            assert(s[i2] == before[b2]);
                        }
                    }
                }
            },
        }
        j += 1;
    }
    proof {
        assert(entries@.take(j as int) =~= entries@);
        assert(listing_ok(entries@, parent@, out@));
    }
    out
}

/// The name of a raw entry, by reference.
fn entry_name_ref(e: &RawEntry) -> (r: &String)
    ensures
        r@ == entry_name(*e),
{
    match e {
        RawEntry::File { name } => name,
        RawEntry::Dir { name, .. } => name,
    }
}

/// Checks that a raw tree is well formed the way `build_listing` asks:
/// sibling names distinct at every level. A tree read from a real
/// directory always is; this lets a caller test it rather than assume it.
pub fn listing_admissible(entries: &Vec<RawEntry>) -> (b: bool)
    ensures
        b == raw_wf(entries@),
    decreases entries@,
{
    let mut j: usize = 0;
    while j < entries.len()
        invariant
            j <= entries@.len(),
            forall|a: int, b2: int|
                0 <= a < b2 < j ==> entry_name(#[trigger] entries@[a]) != entry_name(
                    #[trigger] entries@[b2],
                ),
            forall|t: int| 0 <= t < j ==> entry_sub_wf(#[trigger] entries@[t]),
        decreases entries@.len() - j,
    {
        let mut a: usize = 0;
        while a < j
            invariant
                a <= j,
                j < entries@.len(),
                forall|t: int|
                    0 <= t < a ==> entry_name(#[trigger] entries@[t]) != entry_name(
                        entries@[j as int],
                    ),
            decreases j - a,
        {
            if str_eq_chars(entry_name_ref(&entries[a]).as_str(), entry_name_ref(&entries[j]).as_str()) {
                proof {
                    assert(entry_name(entries@[a as int]) == entry_name(entries@[j as int]));
                    assert(!raw_wf(entries@));
                }
                return false;
            }
            a += 1;
        }
        match &entries[j] {
            RawEntry::Dir { listing, .. } => {
                match listing {
                    Some(sub) => {
                        proof {
                            assert(decreases_to!(entries@ => entries@[j as int]));
                            assert(decreases_to!(entries@[j as int] => sub@));
                        }
                        if !listing_admissible(sub) {
                            proof {
                                assert(!entry_sub_wf(entries@[j as int]));
                                assert(!raw_wf(entries@));
                            }
                            return false;
                        }
                    },
                    None => {},
                }
            },
            RawEntry::File { .. } => {},
        }
        j += 1;
    }
    true
}

/// Lists a workspace: refused when the workspace path does not exist on
/// disk; a failed read of the root itself is surfaced as a filesystem
/// error; otherwise the raw entries are built into the ordered, pruned
/// tree. A workspace with no content yields an empty listing, which
/// confirms the workspace itself is valid.
pub fn list_workspace_files(
    workspace_path: &str,
    path_exists: bool,
    read: Result<Vec<RawEntry>, String>,
) -> (r: Result<Vec<WorkspaceFile>, MikuError>)
    requires
        read is Ok ==> raw_wf(read->Ok_0@),
    ensures
        !path_exists ==> r is Err && is_path_error(r->Err_0, "Workspace path does not exist"@),
        path_exists && read is Err ==> r is Err && is_io_error(r->Err_0, read->Err_0@),
        path_exists && read is Ok ==> r is Ok && listing_ok(
            read->Ok_0@,
            workspace_path@,
            r->Ok_0@,
        ),
{
    if !path_exists {
        return Err(MikuError::Path(String::from_str("Workspace path does not exist")));
    }
    match read {
        Err(m) => Err(MikuError::Io(m)),
        Ok(entries) => Ok(build_listing(&entries, workspace_path)),
    }
}

/// A node is properly pruned: a directory node always carries a
/// non-empty listing, and its listing is pruned in turn.
pub open spec fn node_pruned(w: WorkspaceFile) -> bool
    decreases w, 1int,
{
    w.is_directory ==> {
        &&& w.children is Some
        &&& w.children->0@.len() > 0
        &&& children_pruned(w.children->0@)
    }
}

/// Every node of a subtree's listing is pruned.
pub open spec fn children_pruned(nodes: Seq<WorkspaceFile>) -> bool
    decreases nodes, 0int,
{
    forall|i: int| 0 <= i < nodes.len() ==> node_pruned(#[trigger] nodes[i])
}

/// Law: a built listing never returns a directory node whose children
/// sequence is empty or absent, at any depth: a directory node appears
/// only if it transitively holds at least one content file.
pub proof fn lemma_listing_pruned(
    entries: Seq<RawEntry>,
    parent: Seq<char>,
    result: Seq<WorkspaceFile>,
)
    requires
        listing_ok(entries, parent, result),
    ensures
        forall|i: int| 0 <= i < result.len() ==> node_pruned(#[trigger] result[i]),
    decreases entries,
{
    assert forall|i: int| 0 <= i < result.len() implies node_pruned(#[trigger] result[i]) by {
        let w = result[i];
        assert(node_from(entries, parent, w));
        let j = choose|j: int|
            0 <= j < entries.len() && entry_yields(#[trigger] entries[j], parent, w);
        match entries[j] {
            RawEntry::File { .. } => {},
            RawEntry::Dir { name, listing } => {
                match listing {
                    None => {},
                    Some(sub) => {
                        lemma_listing_pruned(
                            sub@,
                            spec_join(parent, name@),
                            w.children->0@,
                        );
                    },
                }
            },
        }
    }
}

/// Law: among the siblings of a built listing, every directory stands
/// before every file, and the whole level is ordered by the sibling
/// order.
pub proof fn lemma_listing_ordered(
    entries: Seq<RawEntry>,
    parent: Seq<char>,
    result: Seq<WorkspaceFile>,
)
    requires
        listing_ok(entries, parent, result),
    ensures
        listing_sorted(result),
        forall|i: int, j: int|
            0 <= i < j < result.len() && !(#[trigger] result[i]).is_directory ==> !(
            #[trigger] result[j]).is_directory,
{
    assert forall|i: int, j: int|
        0 <= i < j < result.len() && !(#[trigger] result[i]).is_directory implies !(
        #[trigger] result[j]).is_directory by {
        assert(node_le(result[i], result[j]));
    }
}

/// Law: every node of a built listing is valid for its level: its name is
/// not an excluded one, its path is the listed directory's path joined
/// with its name, and a leaf always names a content file.
pub proof fn lemma_listing_nodes_valid(
    entries: Seq<RawEntry>,
    parent: Seq<char>,
    result: Seq<WorkspaceFile>,
)
    requires
        listing_ok(entries, parent, result),
    ensures
        forall|i: int|
            0 <= i < result.len() ==> !excluded_name((#[trigger] result[i]).name@) && result[i].path@
                == spec_join(parent, result[i].name@) && (!result[i].is_directory
                ==> spec_is_markdown(result[i].name@)),
{
    assert forall|i: int|
        0 <= i < result.len() implies !excluded_name((#[trigger] result[i]).name@)
        && result[i].path@ == spec_join(parent, result[i].name@) && (!result[i].is_directory
        ==> spec_is_markdown(result[i].name@)) by {
        let w = result[i];
        assert(node_from(entries, parent, w));
        let j = choose|j: int|
            0 <= j < entries.len() && entry_yields(#[trigger] entries[j], parent, w);
        lemma_yields_name(entries[j], parent, w);
    }
}

/// Every sibling set of a tree, at every depth, is ordered.
pub open spec fn tree_sorted(nodes: Seq<WorkspaceFile>) -> bool
    decreases nodes,
{
    &&& listing_sorted(nodes)
    &&& (forall|i: int|
        0 <= i < nodes.len() && (#[trigger] nodes[i]).children is Some ==> tree_sorted(
            nodes[i].children->0@,
        ))
}

/// Law: in a built tree every sibling set is ordered, at every depth:
/// directories before files, case-insensitive lexicographic names within
/// each kind.
pub proof fn lemma_tree_sorted(
    entries: Seq<RawEntry>,
    parent: Seq<char>,
    result: Seq<WorkspaceFile>,
)
    requires
        listing_ok(entries, parent, result),
    ensures
        tree_sorted(result),
    decreases entries,
{
    assert forall|i: int|
        0 <= i < result.len() && (#[trigger] result[i]).children is Some implies tree_sorted(
        result[i].children->0@,
    ) by {
        let w = result[i];
        assert(node_from(entries, parent, w));
        let j = choose|j: int|
            0 <= j < entries.len() && entry_yields(#[trigger] entries[j], parent, w);
        match entries[j] {
            RawEntry::File { .. } => {},
            RawEntry::Dir { name, listing } => {
                match listing {
                    None => {},
                    Some(sub) => {
                        lemma_tree_sorted(sub@, spec_join(parent, name@), w.children->0@);
                    },
                }
            },
        }
    }
}

/// Law: a content file among the raw entries always appears in the built
/// listing as a leaf node carrying the joined path — in particular, a
/// freshly created file shows up in the next listing of its directory.
pub proof fn lemma_content_file_listed(
    entries: Seq<RawEntry>,
    parent: Seq<char>,
    result: Seq<WorkspaceFile>,
    j: int,
)
    requires
        raw_wf(entries),
        listing_ok(entries, parent, result),
        0 <= j < entries.len(),
        entries[j] is File,
        !excluded_name(entry_name(entries[j])),
        spec_is_markdown(entry_name(entries[j])),
    ensures
        exists|i: int|
            0 <= i < result.len() && (#[trigger] result[i]).name@ == entry_name(entries[j])
                && result[i].path@ == spec_join(parent, entry_name(entries[j]))
                && !result[i].is_directory,
{
    let n = entry_name(entries[j]);
    assert(qualifies(entries[j]));
    assert(name_in(result, n));
    let i = choose|i: int| 0 <= i < result.len() && (#[trigger] result[i]).name@ == n;
    let w = result[i];
    assert(node_from(entries, parent, w));
    let j2 = choose|j2: int|
        0 <= j2 < entries.len() && entry_yields(#[trigger] entries[j2], parent, w);
    lemma_yields_name(entries[j2], parent, w);
    assert(j2 == j) by {
        if j2 != j {
            assert(entry_name(entries[j2]) != entry_name(entries[j]));
        }
    }
    assert(0 <= i < result.len() && result[i].name@ == n && result[i].path@ == spec_join(parent, n)
        && !result[i].is_directory);
}

/// Law: a name that stands among no raw entry stands in no node of the
/// built listing — once an entry is deleted, the next listing of its
/// directory no longer shows it.
pub proof fn lemma_absent_name_not_listed(
    entries: Seq<RawEntry>,
    parent: Seq<char>,
    result: Seq<WorkspaceFile>,
    n: Seq<char>,
)
    requires
        listing_ok(entries, parent, result),
        forall|j: int| 0 <= j < entries.len() ==> entry_name(#[trigger] entries[j]) != n,
    ensures
        forall|i: int| 0 <= i < result.len() ==> (#[trigger] result[i]).name@ != n,
{
    assert forall|i: int| 0 <= i < result.len() implies (#[trigger] result[i]).name@ != n by {
        let w = result[i];
        assert(node_from(entries, parent, w));
        let j = choose|j: int|
            0 <= j < entries.len() && entry_yields(#[trigger] entries[j], parent, w);
        lemma_yields_name(entries[j], parent, w);
    }
}

/// Same-name nodes of the two listings have the same kind.
spec fn kinds_agree(r1: Seq<WorkspaceFile>, r2: Seq<WorkspaceFile>) -> bool {
    forall|i: int, k: int|
        0 <= i < r1.len() && 0 <= k < r2.len() && (#[trigger] r1[i]).name@ == (
        #[trigger] r2[k]).name@ ==> r1[i].is_directory == r2[k].is_directory
}

/// Two ordered listings with distinct names, the same name sets and
/// agreeing kinds are pointwise the same, in length, name and kind: the
/// order admits exactly one arrangement.
proof fn lemma_sorted_distinct_unique(r1: Seq<WorkspaceFile>, r2: Seq<WorkspaceFile>)
    requires
        listing_sorted(r1),
        listing_sorted(r2),
        forall|i1: int, i2: int|
            0 <= i1 < i2 < r1.len() ==> (#[trigger] r1[i1]).name@ != (#[trigger] r1[i2]).name@,
        forall|i1: int, i2: int|
            0 <= i1 < i2 < r2.len() ==> (#[trigger] r2[i1]).name@ != (#[trigger] r2[i2]).name@,
        kinds_agree(r1, r2),
        forall|i: int| 0 <= i < r1.len() ==> name_in(r2, (#[trigger] r1[i]).name@),
        forall|k: int| 0 <= k < r2.len() ==> name_in(r1, (#[trigger] r2[k]).name@),
    ensures
        r1.len() == r2.len(),
        forall|i: int|
            0 <= i < r1.len() ==> (#[trigger] r1[i]).name@ == r2[i].name@ && r1[i].is_directory
                == r2[i].is_directory,
    decreases r1.len(),
{
    if r1.len() == 0 {
        if r2.len() > 0 {
            assert(name_in(r1, r2[0].name@));
            let i0 = choose|i0: int| 0 <= i0 < r1.len() && (#[trigger] r1[i0]).name@ == r2[0].name@;
            assert(false);
        }
    } else if r2.len() == 0 {
        assert(name_in(r2, r1[0].name@));
        let k0 = choose|k0: int| 0 <= k0 < r2.len() && (#[trigger] r2[k0]).name@ == r1[0].name@;
        assert(false);
    } else {
        // The heads carry the same name: each head's name sits somewhere
        // in the other listing, no earlier than that listing's head, and
        // the order is antisymmetric.
        assert(name_in(r2, r1[0].name@));
        let k = choose|k: int| 0 <= k < r2.len() && (#[trigger] r2[k]).name@ == r1[0].name@;
        assert(name_in(r1, r2[0].name@));
        let m = choose|m: int| 0 <= m < r1.len() && (#[trigger] r1[m]).name@ == r2[0].name@;
        assert(r2[k].is_directory == r1[0].is_directory);
        assert(r1[m].is_directory == r2[0].is_directory);
        if k > 0 {
            assert(node_le(r2[0], r2[k]));
        } else {
            lemma_name_le_refl(r2[0].name@);
            assert(node_le(r2[0], r2[k]));
        }
        if m > 0 {
            assert(node_le(r1[0], r1[m]));
        } else {
            lemma_name_le_refl(r1[0].name@);
            assert(node_le(r1[0], r1[m]));
        }
        assert(node_le(r1[0], r2[0]));
        assert(node_le(r2[0], r1[0]));
        lemma_node_le_antisym(r1[0], r2[0]);
        assert(r1[0].is_directory == r2[0].is_directory);
        // The tails satisfy the same hypotheses.
        let t1 = r1.drop_first();
        let t2 = r2.drop_first();
        assert(forall|i: int| 0 <= i < t1.len() ==> #[trigger] t1[i] == r1[i + 1]);
        assert(forall|i: int| 0 <= i < t2.len() ==> #[trigger] t2[i] == r2[i + 1]);
        assert(listing_sorted(t1)) by {
            assert forall|i: int, j: int| 0 <= i < j < t1.len() implies node_le(
                #[trigger] t1[i],
                #[trigger] t1[j],
            ) by {
                assert(node_le(r1[i + 1], r1[j + 1]));
            }
        }
        assert(listing_sorted(t2)) by {
            assert forall|i: int, j: int| 0 <= i < j < t2.len() implies node_le(
                #[trigger] t2[i],
                #[trigger] t2[j],
            ) by {
                assert(node_le(r2[i + 1], r2[j + 1]));
            }
        }
        assert forall|i: int| 0 <= i < t1.len() implies name_in(
            t2,
            (#[trigger] t1[i]).name@,
        ) by {
            assert(name_in(r2, r1[i + 1].name@));
            let k2 = choose|k2: int|
                0 <= k2 < r2.len() && (#[trigger] r2[k2]).name@ == r1[i + 1].name@;
            assert(r1[i + 1].name@ != r1[0].name@);
            assert(k2 != 0);
            assert(t2[k2 - 1].name@ == t1[i].name@);
        }
        assert forall|k2: int| 0 <= k2 < t2.len() implies name_in(
            t1,
            (#[trigger] t2[k2]).name@,
        ) by {
            assert(name_in(r1, r2[k2 + 1].name@));
            let m2 = choose|m2: int|
                0 <= m2 < r1.len() && (#[trigger] r1[m2]).name@ == r2[k2 + 1].name@;
            assert(r2[k2 + 1].name@ != r2[0].name@);
            assert(m2 != 0);
            assert(t1[m2 - 1].name@ == t2[k2].name@);
        }
        assert(kinds_agree(t1, t2)) by {
            assert forall|i: int, k2: int|
                0 <= i < t1.len() && 0 <= k2 < t2.len() && (#[trigger] t1[i]).name@ == (
                #[trigger] t2[k2]).name@ implies t1[i].is_directory == t2[k2].is_directory by {
                assert(r1[i + 1].is_directory == r2[k2 + 1].is_directory);
            }
        }
        lemma_sorted_distinct_unique(t1, t2);
        assert forall|i: int|
            0 <= i < r1.len() implies (#[trigger] r1[i]).name@ == r2[i].name@ && r1[i].is_directory
            == r2[i].is_directory by {
            if i > 0 {
                assert(t1[i - 1].name@ == t2[i - 1].name@);
                assert(t1[i - 1].is_directory == t2[i - 1].is_directory);
            }
        }
    }
}

/// Law: the listing of a directory is a function of its raw entries
/// alone — two correct listings of the same entries agree in length and,
/// position by position, in name, path and kind, whatever order the
/// entries were enumerated in.
pub proof fn lemma_listing_deterministic(
    entries: Seq<RawEntry>,
    parent: Seq<char>,
    r1: Seq<WorkspaceFile>,
    r2: Seq<WorkspaceFile>,
)
    requires
        raw_wf(entries),
        listing_ok(entries, parent, r1),
        listing_ok(entries, parent, r2),
    ensures
        r1.len() == r2.len(),
        forall|i: int|
            0 <= i < r1.len() ==> (#[trigger] r1[i]).name@ == r2[i].name@ && r1[i].path@
                == r2[i].path@ && r1[i].is_directory == r2[i].is_directory,
{
    assert forall|i: int| 0 <= i < r1.len() implies name_in(
        r2,
        (#[trigger] r1[i]).name@,
    ) by {
        assert(node_from(entries, parent, r1[i]));
        let j = choose|j: int|
            0 <= j < entries.len() && entry_yields(#[trigger] entries[j], parent, r1[i]);
        lemma_yields_implies_qualifies(entries[j], parent, r1[i]);
        lemma_yields_name(entries[j], parent, r1[i]);
        assert(qualifies(entries[j]));
        assert(name_in(r2, entry_name(entries[j])));
    }
    assert forall|k: int| 0 <= k < r2.len() implies name_in(
        r1,
        (#[trigger] r2[k]).name@,
    ) by {
        assert(node_from(entries, parent, r2[k]));
        let j = choose|j: int|
            0 <= j < entries.len() && entry_yields(#[trigger] entries[j], parent, r2[k]);
        lemma_yields_implies_qualifies(entries[j], parent, r2[k]);
        lemma_yields_name(entries[j], parent, r2[k]);
        assert(qualifies(entries[j]));
        assert(name_in(r1, entry_name(entries[j])));
    }
    assert(kinds_agree(r1, r2)) by {
        assert forall|i: int, k: int|
            0 <= i < r1.len() && 0 <= k < r2.len() && (#[trigger] r1[i]).name@ == (
            #[trigger] r2[k]).name@ implies r1[i].is_directory == r2[k].is_directory by {
            assert(node_from(entries, parent, r1[i]));
            let j1 = choose|j1: int|
                0 <= j1 < entries.len() && entry_yields(#[trigger] entries[j1], parent, r1[i]);
            assert(node_from(entries, parent, r2[k]));
            let j2 = choose|j2: int|
                0 <= j2 < entries.len() && entry_yields(#[trigger] entries[j2], parent, r2[k]);
            lemma_yields_name(entries[j1], parent, r1[i]);
            lemma_yields_name(entries[j2], parent, r2[k]);
            if j1 != j2 {
                assert(entry_name(entries[j1]) != entry_name(entries[j2]));
            }
            assert(j1 == j2);
        }
    }
    lemma_sorted_distinct_unique(r1, r2);
    assert forall|i: int|
        0 <= i < r1.len() implies (#[trigger] r1[i]).name@ == r2[i].name@ && r1[i].path@
        == r2[i].path@ && r1[i].is_directory == r2[i].is_directory by {
        assert(node_from(entries, parent, r1[i]));
        let j1 = choose|j1: int|
            0 <= j1 < entries.len() && entry_yields(#[trigger] entries[j1], parent, r1[i]);
        lemma_yields_name(entries[j1], parent, r1[i]);
        assert(node_from(entries, parent, r2[i]));
        let j2 = choose|j2: int|
            0 <= j2 < entries.len() && entry_yields(#[trigger] entries[j2], parent, r2[i]);
        lemma_yields_name(entries[j2], parent, r2[i]);
    }
}

} // verus!
