use vstd::prelude::*;
use vstd::string::*;

verus! {

// Paths are plain strings over Unix conventions: '/' separates segments, a
// segment "." stands for the current directory and ".." for the directory
// above. The spec functions below define the library's reading of a path;
// the executable functions are proved against them.

/// Number of characters in the run of non-separator characters at the end
/// of `p` (the length of the last segment, once trailing separators are
/// gone).
pub open spec fn tail_run(p: Seq<char>) -> nat
    decreases p.len(),
{
    if p.len() == 0 {
        0
    } else if p.last() == '/' {
        0
    } else {
        1 + tail_run(p.drop_last())
    }
}

/// The final run of non-separator characters is never longer than the
/// string itself.
pub proof fn lemma_tail_run_le(p: Seq<char>)
    ensures
        tail_run(p) <= p.len(),
    decreases p.len(),
{
    if p.len() > 0 && p.last() != '/' {
        lemma_tail_run_le(p.drop_last());
    }
}

/// `p` without its trailing separators.
pub open spec fn strip_slashes(p: Seq<char>) -> Seq<char>
    decreases p.len(),
{
    if p.len() > 0 && p.last() == '/' {
        strip_slashes(p.drop_last())
    } else {
        p
    }
}

/// The segment is the current-directory marker ".".
pub open spec fn is_dot_seg(s: Seq<char>) -> bool {
    s.len() == 1 && s[0] == '.'
}

/// The segment is the parent-directory marker "..".
pub open spec fn is_dotdot_seg(s: Seq<char>) -> bool {
    s.len() == 2 && s[0] == '.' && s[1] == '.'
}

/// The final segment of `p`: trailing separators are ignored, "." segments
/// are skipped, and no name is reported for an empty path, a pure separator
/// run, or a path ending in "..".
pub open spec fn spec_file_name(p: Seq<char>) -> Option<Seq<char>>
    decreases p.len(),
    via spec_file_name_decreases
{
    if p.len() == 0 {
        None
    } else if p.last() == '/' {
        spec_file_name(p.drop_last())
    } else {
        let k = tail_run(p) as int;
        let seg = p.subrange(p.len() - k, p.len() as int);
        if is_dot_seg(seg) {
            if k == p.len() {
                None
            } else {
                spec_file_name(p.subrange(0, p.len() - k))
            }
        } else if is_dotdot_seg(seg) {
            None
        } else {
            Some(seg)
        }
    }
}

#[via_fn]
proof fn spec_file_name_decreases(p: Seq<char>) {
    lemma_tail_run_le(p);
}

/// The prefix of `p` that names the directory holding its final segment:
/// the last segment and the separators before it are removed ("." segments
/// are skipped first). An absolute path keeps its leading "/"; a bare name
/// has the empty parent; the root and the empty path have none.
pub open spec fn spec_parent(p: Seq<char>) -> Option<Seq<char>>
    decreases p.len(),
    via spec_parent_decreases
{
    if p.len() == 0 {
        None
    } else if p.last() == '/' {
        if p.len() == 1 {
            None
        } else {
            spec_parent(p.drop_last())
        }
    } else {
        let k = tail_run(p) as int;
        let seg = p.subrange(p.len() - k, p.len() as int);
        if is_dot_seg(seg) && k < p.len() {
            spec_parent(p.subrange(0, p.len() - k))
        } else {
            let rest = strip_slashes(p.subrange(0, p.len() - k));
            if rest.len() > 0 {
                Some(rest)
            } else if p[0] == '/' {
                Some(seq!['/'])
            } else {
                Some(Seq::<char>::empty())
            }
        }
    }
}

#[via_fn]
proof fn spec_parent_decreases(p: Seq<char>) {
    lemma_tail_run_le(p);
}

/// Index of the last '.' in a file name, if any.
pub open spec fn last_dot(f: Seq<char>) -> Option<int>
    decreases f.len(),
{
    if f.len() == 0 {
        None
    } else if f.last() == '.' {
        Some(f.len() - 1)
    } else {
        last_dot(f.drop_last())
    }
}

/// The extension of a file name: what follows the last '.', provided that
/// dot is neither absent nor the leading character (a leading dot marks a
/// hidden file, not an extension).
pub open spec fn spec_ext_of_name(f: Seq<char>) -> Option<Seq<char>> {
    match last_dot(f) {
        Some(d) => if d > 0 {
            Some(f.subrange(d + 1, f.len() as int))
        } else {
            None
        },
        None => None,
    }
}

/// The extension of the final segment of a path.
pub open spec fn spec_path_extension(p: Seq<char>) -> Option<Seq<char>> {
    match spec_file_name(p) {
        Some(f) => spec_ext_of_name(f),
        None => None,
    }
}

/// Lower-casing of a character, as a code point. The folding is ASCII
/// only: 'A' through 'Z' map to their lower-case letters and every other
/// character, non-ASCII included, stands for itself. All case
/// insensitivity in this library — extension matching and sibling
/// ordering — is meant in this ASCII sense.
pub open spec fn lower_code(c: char) -> u32 {
    if 65 <= c as u32 && c as u32 <= 90 {
        (c as u32 + 32) as u32
    } else {
        c as u32
    }
}

/// The extension, ASCII-lower-cased, is one of the content extensions
/// "md", "markdown", "mdown".
pub open spec fn is_md_ext(e: Seq<char>) -> bool {
    ||| (e.len() == 2 && lower_code(e[0]) == 'm' as u32 && lower_code(e[1]) == 'd' as u32)
    ||| (e.len() == 8 && lower_code(e[0]) == 'm' as u32 && lower_code(e[1]) == 'a' as u32
        && lower_code(e[2]) == 'r' as u32 && lower_code(e[3]) == 'k' as u32 && lower_code(e[4])
        == 'd' as u32 && lower_code(e[5]) == 'o' as u32 && lower_code(e[6]) == 'w' as u32
        && lower_code(e[7]) == 'n' as u32)
    ||| (e.len() == 5 && lower_code(e[0]) == 'm' as u32 && lower_code(e[1]) == 'd' as u32
        && lower_code(e[2]) == 'o' as u32 && lower_code(e[3]) == 'w' as u32 && lower_code(e[4])
        == 'n' as u32)
}

/// The path names a content file: its extension, lower-cased, is "md",
/// "markdown" or "mdown".
pub open spec fn spec_is_markdown(p: Seq<char>) -> bool {
    match spec_path_extension(p) {
        Some(e) => is_md_ext(e),
        None => false,
    }
}

/// Joining a name onto a base path: an absolute name replaces the base; an
/// empty base disappears; otherwise exactly one separator stands between
/// base and name.
pub open spec fn spec_join(b: Seq<char>, n: Seq<char>) -> Seq<char> {
    if n.len() > 0 && n[0] == '/' {
        n
    } else if b.len() == 0 || b.last() == '/' {
        b + n
    } else {
        b + seq!['/'] + n
    }
}

/// Relies on std::path::Path::exists: it queries the live filesystem, so
/// nothing is promised of the result.
#[verifier::external_body]
pub fn file_exists(path: &str) -> bool {
    std::path::Path::new(path).exists()
}

/// ASCII lower-casing of a character, as a code point (see `lower_code`).
pub(crate) fn lower_char_code(c: char) -> (r: u32)
    ensures
        r == lower_code(c),
{
    let u = c as u32;
    if 65 <= u && u <= 90 {
        u + 32
    } else {
        u
    }
}

/// Length of the run of non-separator characters ending at `end`.
fn tail_run_at(path: &str, end: usize) -> (k: usize)
    requires
        end <= path@.len(),
    ensures
        k <= end,
        k as nat == tail_run(path@.take(end as int)),
{
    let mut j: usize = end;
    while j > 0 && path.get_char(j - 1) != '/'
        invariant
            j <= end <= path@.len(),
            tail_run(path@.take(end as int)) == end - j + tail_run(path@.take(j as int)),
        decreases j,
    {
        proof {
            assert(path@.take(j as int).drop_last() =~= path@.take(j - 1));
            assert(path@.take(j as int).last() == path@[j - 1]);
        }
        j -= 1;
    }
    proof {
        if j > 0 {
            assert(path@.take(j as int).last() == path@[j - 1]);
        }
    }
    end - j
}

/// The final segment of the first `end` characters of `path`, under the
/// reading of `spec_file_name`.
fn file_name_at(path: &str, end: usize) -> (r: Option<String>)
    requires
        end <= path@.len(),
    ensures
        (r is Some) == (spec_file_name(path@.take(end as int)) is Some),
        r is Some ==> r->0@ == spec_file_name(path@.take(end as int))->0,
    decreases end,
{
    let ghost p = path@.take(end as int);
    if end == 0 {
        return None;
    }
    if path.get_char(end - 1) == '/' {
        proof {
            assert(p.drop_last() =~= path@.take(end - 1));
        }
        return file_name_at(path, end - 1);
    }
    let k = tail_run_at(path, end);
    proof {
        assert(p.last() == path@[end - 1]);
        assert(tail_run(p) == 1 + tail_run(p.drop_last()));
    }
    let ghost seg = p.subrange(p.len() - k, p.len() as int);
    proof {
        assert(seg =~= path@.subrange(end - k, end as int));
        assert(seg.len() == k);
        assert forall|m: int| 0 <= m < k as int implies seg[m] == path@[end - k + m] by {}
    }
    if k == 1 && path.get_char(end - 1) == '.' {
        proof {
            assert(is_dot_seg(seg));
        }
        if end == 1 {
            None
        } else {
            proof {
                assert(p.subrange(0, p.len() - k as int) =~= path@.take(end - k));
            }
            file_name_at(path, end - k)
        }
    } else {
        proof {
            if k == 1 {
                assert(seg[0] == path@[end - 1]);
                assert(!is_dot_seg(seg));
            }
        }
        if k == 2 && path.get_char(end - 1) == '.' && path.get_char(end - 2) == '.' {
            proof {
                assert(is_dotdot_seg(seg));
            }
            None
        } else {
            proof {
                if k == 2 {
                    assert(seg[0] == path@[end - 2] && seg[1] == path@[end - 1]);
                }
                assert(!is_dotdot_seg(seg));
            }
            let s = path.substring_char(end - k, end);
            Some(String::from_str(s))
        }
    }
}

/// The name of the entry a path points at: its final segment.
pub fn get_file_name(path: &str) -> (r: Option<String>)
    ensures
        (r is Some) == (spec_file_name(path@) is Some),
        r is Some ==> r->0@ == spec_file_name(path@)->0,
{
    let n = path.unicode_len();
    proof {
        assert(path@.take(n as int) =~= path@);
    }
    file_name_at(path, n)
}

/// The parent directory of the first `end` characters of `path`, under the
/// reading of `spec_parent`.
fn parent_at(path: &str, end: usize) -> (r: Option<String>)
    requires
        end <= path@.len(),
    ensures
        (r is Some) == (spec_parent(path@.take(end as int)) is Some),
        r is Some ==> r->0@ == spec_parent(path@.take(end as int))->0,
    decreases end,
{
    let ghost p = path@.take(end as int);
    if end == 0 {
        return None;
    }
    if path.get_char(end - 1) == '/' {
        if end == 1 {
            return None;
        }
        proof {
            assert(p.drop_last() =~= path@.take(end - 1));
        }
        return parent_at(path, end - 1);
    }
    let k = tail_run_at(path, end);
    proof {
        assert(p.last() == path@[end - 1]);
        assert(tail_run(p) == 1 + tail_run(p.drop_last()));
    }
    let ghost seg = p.subrange(p.len() - k, p.len() as int);
    proof {
        assert(seg =~= path@.subrange(end - k, end as int));
        assert forall|m: int| 0 <= m < k as int implies seg[m] == path@[end - k + m] by {}
    }
    if k == 1 && path.get_char(end - 1) == '.' && k < end {
        proof {
            assert(is_dot_seg(seg));
            assert(p.subrange(0, p.len() - k as int) =~= path@.take(end - k));
        }
        return parent_at(path, end - k);
    }
    proof {
        if k == 1 {
            assert(seg[0] == path@[end - 1]);
        }
        assert(!(is_dot_seg(seg) && k < end));
        assert(p.subrange(0, p.len() - k as int) =~= path@.take(end - k));
    }
    // Strip the separators that precede the final segment.
    let mut j: usize = end - k;
    while j > 0 && path.get_char(j - 1) == '/'
        invariant
            j <= end - k,
            end <= path@.len(),
            strip_slashes(path@.take((end - k) as int)) == strip_slashes(path@.take(j as int)),
        decreases j,
    {
        proof {
            assert(path@.take(j as int).drop_last() =~= path@.take(j - 1));
            assert(path@.take(j as int).last() == path@[j - 1]);
        }
        j -= 1;
    }
    proof {
        if j > 0 {
            assert(path@.take(j as int).last() == path@[j - 1]);
        }
        assert(strip_slashes(path@.take(j as int)) == path@.take(j as int));
    }
    if j > 0 {
        let s = path.substring_char(0, j);
        Some(String::from_str(s))
    } else if path.get_char(0) == '/' {
        proof {
            assert(p[0] == path@[0]);
            reveal_strlit("/");
            assert("/"@ =~= seq!['/']);
        }
        Some(String::from_str("/"))
    } else {
        proof {
            assert(p[0] == path@[0]);
        }
        Some(String::new())
    }
}

/// The directory containing the entry a path points at.
pub fn get_parent_dir(path: &str) -> (r: Option<String>)
    ensures
        (r is Some) == (spec_parent(path@) is Some),
        r is Some ==> r->0@ == spec_parent(path@)->0,
{
    let n = path.unicode_len();
    proof {
        assert(path@.take(n as int) =~= path@);
    }
    parent_at(path, n)
}

/// Whether the path names a markdown-like content file: its extension,
/// lower-cased, is "md", "markdown" or "mdown".
pub fn is_markdown_file(path: &str) -> (r: bool)
    ensures
        r == spec_is_markdown(path@),
{
    let name_opt = get_file_name(path);
    let name = match name_opt {
        None => {
            return false;
        },
        Some(name) => name,
    };
    let f: &str = name.as_str();
    let n = f.unicode_len();
    let mut j: usize = n;
    proof {
        assert(f@.take(n as int) =~= f@);
    }
    while j > 0 && f.get_char(j - 1) != '.'
        invariant
            j <= n,
            n == f@.len(),
            last_dot(f@) == last_dot(f@.take(j as int)),
        decreases j,
    {
        proof {
            assert(f@.take(j as int).drop_last() =~= f@.take(j - 1));
            assert(f@.take(j as int).last() == f@[j - 1]);
        }
        j -= 1;
    }
    proof {
        if j > 0 {
            assert(f@.take(j as int).last() == f@[j - 1]);
            assert(f@.take(j as int).drop_last() =~= f@.take(j - 1));
            assert(last_dot(f@) == Some(j - 1));
        } else {
            assert(f@.take(0) =~= Seq::<char>::empty());
            assert(last_dot(f@) is None);
        }
    }
    if j <= 1 {
        return false;
    }
    let ghost e = f@.subrange(j as int, n as int);
    proof {
        assert(spec_ext_of_name(f@) == Some(e));
        assert forall|m: int| 0 <= m < e.len() implies e[m] == f@[j + m] by {}
    }
    let elen = n - j;
    if elen == 2 {
        lower_char_code(f.get_char(j)) == 'm' as u32 && lower_char_code(f.get_char(j + 1))
            == 'd' as u32
    } else if elen == 8 {
        lower_char_code(f.get_char(j)) == 'm' as u32 && lower_char_code(f.get_char(j + 1))
            == 'a' as u32 && lower_char_code(f.get_char(j + 2)) == 'r' as u32 && lower_char_code(
            f.get_char(j + 3),
        ) == 'k' as u32 && lower_char_code(f.get_char(j + 4)) == 'd' as u32 && lower_char_code(
            f.get_char(j + 5),
        ) == 'o' as u32 && lower_char_code(f.get_char(j + 6)) == 'w' as u32 && lower_char_code(
            f.get_char(j + 7),
        ) == 'n' as u32
    } else if elen == 5 {
        lower_char_code(f.get_char(j)) == 'm' as u32 && lower_char_code(f.get_char(j + 1))
            == 'd' as u32 && lower_char_code(f.get_char(j + 2)) == 'o' as u32 && lower_char_code(
            f.get_char(j + 3),
        ) == 'w' as u32 && lower_char_code(f.get_char(j + 4)) == 'n' as u32
    } else {
        false
    }
}

/// Joins `name` onto the directory `base`, as `spec_join` reads it.
pub fn join_path(base: &str, name: &str) -> (r: String)
    ensures
        r@ == spec_join(base@, name@),
{
    let nlen = name.unicode_len();
    if nlen > 0 && name.get_char(0) == '/' {
        return String::from_str(name);
    }
    let blen = base.unicode_len();
    let mut out = String::from_str(base);
    if blen > 0 && !(base.get_char(blen - 1) == '/') {
        out.append("/");
        proof {
            reveal_strlit("/");
            assert("/"@ =~= seq!['/']);
        }
    }
    out.append(name);
    out
}

} // verus!
