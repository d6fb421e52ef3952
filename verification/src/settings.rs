use vstd::prelude::*;
use vstd::string::*;

verus! {

/// Preference for the editor's colour theme.
#[derive(Debug, Clone)]
pub struct ThemePreference {
    /// Selected theme identifier, or "system" for auto-detection.
    pub selected: String,
    /// Theme used when the system is in light mode.
    pub light_fallback: String,
    /// Theme used when the system is in dark mode.
    pub dark_fallback: String,
}

impl Default for ThemePreference {
    fn default() -> (r: Self)
        ensures
            r.selected@ == "system"@,
            r.light_fallback@ == "light"@,
            r.dark_fallback@ == "dark"@,
    {
        ThemePreference {
            selected: String::from_str("system"),
            light_fallback: String::from_str("light"),
            dark_fallback: String::from_str("dark"),
        }
    }
}

/// An open document: where it lives, what it holds, and whether it has
/// unsaved changes.
#[derive(Debug, Clone)]
pub struct Document {
    pub path: Option<String>,
    pub content: String,
    pub is_modified: bool,
}

impl Default for Document {
    fn default() -> (r: Self)
        ensures
            r.path is None,
            r.content@ == Seq::<char>::empty(),
            !r.is_modified,
    {
        Document { path: None, content: String::new(), is_modified: false }
    }
}

/// A fresh, empty, unsaved document.
pub fn new_document() -> (r: Document)
    ensures
        r.path is None,
        r.content@ == Seq::<char>::empty(),
        !r.is_modified,
{
    Document::default()
}

/// The entries of `items` other than `newest`, in their original order.
pub open spec fn keep_other(items: Seq<Seq<char>>, newest: Seq<char>) -> Seq<Seq<char>> {
    items.filter(|q: Seq<char>| q != newest)
}

/// Truncates a sequence to at most ten elements.
pub open spec fn clip_ten<A>(s: Seq<A>) -> Seq<A> {
    if s.len() <= 10 {
        s
    } else {
        s.take(10)
    }
}

/// The recently-used-list discipline: the newest entry first, earlier
/// occurrences of it removed, and the list truncated to ten entries.
pub open spec fn recent_upsert(items: Seq<Seq<char>>, newest: Seq<char>) -> Seq<Seq<char>> {
    clip_ten(seq![newest] + keep_other(items, newest))
}

proof fn lemma_keep_other_empty(newest: Seq<char>)
    ensures
        keep_other(Seq::<Seq<char>>::empty(), newest) == Seq::<Seq<char>>::empty(),
{
    reveal(Seq::filter);
}

proof fn lemma_keep_other_push(s: Seq<Seq<char>>, x: Seq<char>, newest: Seq<char>)
    ensures
        keep_other(s.push(x), newest) == if x != newest {
            keep_other(s, newest).push(x)
        } else {
            keep_other(s, newest)
        },
{
    reveal(Seq::filter);
    assert(s.push(x).drop_last() =~= s);
    assert(s.push(x).last() == x);
}

/// Puts `path` at the front of the recently used list `files`, removing any
/// earlier entry equal to it and keeping at most ten entries.
pub fn add_recent_file(files: &mut Vec<String>, path: String)
    ensures
        final(files)@.map_values(|s: String| s@) == recent_upsert(
            old(files)@.map_values(|s: String| s@),
            path@,
        ),
{
    let ghost orig: Seq<Seq<char>> = old(files)@.map_values(|s: String| s@);
    let ghost pv: Seq<char> = path@;
    let pcopy: String = path.clone();
    let mut out: Vec<String> = Vec::new();
    out.push(path);
    proof {
        assert(orig.take(0) =~= Seq::<Seq<char>>::empty());
        lemma_keep_other_empty(pv);
        assert(seq![pv] + keep_other(orig.take(0), pv) =~= seq![pv]);
        assert(out@.map_values(|s: String| s@) =~= seq![pv]);
    }
    let mut i: usize = 0;
    while i < files.len()
        invariant
            i <= files@.len(),
            files@ == old(files)@,
            orig == files@.map_values(|s: String| s@),
            pcopy@ == pv,
            1 <= out@.len() <= 10,
            out@.map_values(|s: String| s@) == clip_ten(
                seq![pv] + keep_other(orig.take(i as int), pv),
            ),
        decreases files@.len() - i,
    {
        let ghost pre = seq![pv] + keep_other(orig.take(i as int), pv);
        let ghost x: Seq<char> = orig[i as int];
        proof {
            assert(orig.take(i + 1) =~= orig.take(i as int).push(x));
            lemma_keep_other_push(orig.take(i as int), x, pv);
        }
        let cur: &String = &files[i];
        let same: bool = cur.eq(&pcopy);
        proof {
            assert(x == files@[i as int]@);
            assert(same <==> x == pv);
        }
        if !same && out.len() < 10 {
            let ghost before = out@;
            out.push(cur.clone());
            proof {
                assert(out@.map_values(|s: String| s@) =~= before.map_values(|s: String| s@).push(
                    x,
                ));
                assert(pre.len() <= 10);
                assert(seq![pv] + keep_other(orig.take(i + 1), pv) =~= pre.push(x));
            }
        } else {
            proof {
                if same {
                    assert(keep_other(orig.take(i + 1), pv) == keep_other(orig.take(i as int), pv));
                } else {
                    assert(out@.len() == 10);
                    assert(pre.len() >= 10);
                    assert(seq![pv] + keep_other(orig.take(i + 1), pv) =~= pre.push(x));
                    assert(clip_ten(pre.push(x)) =~= clip_ten(pre));
                }
            }
        }
        i += 1;
    }
    proof {
        assert(orig.take(files@.len() as int) =~= orig);
    }
    *files = out;
}

} // verus!
