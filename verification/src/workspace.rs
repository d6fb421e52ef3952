use vstd::prelude::*;
use vstd::string::*;
use crate::path_ops::{file_exists, get_file_name, spec_file_name};
use crate::settings::clip_ten;

verus! {

/// A workspace: a root directory and the display name derived from it.
#[derive(Debug, Clone)]
pub struct Workspace {
    /// Absolute root directory of the workspace.
    pub path: String,
    /// Display name: the final path segment, or a fixed fallback.
    pub name: String,
}

/// The durable record of the current workspace and the recently opened
/// ones, most recent first, at most ten, deduplicated by path.
#[derive(Debug, Clone)]
pub struct WorkspaceConfig {
    pub current_workspace: Option<String>,
    pub recent_workspaces: Vec<Workspace>,
}

impl Default for WorkspaceConfig {
    fn default() -> (r: Self)
        ensures
            r.current_workspace is None,
            r.recent_workspaces@.len() == 0,
    {
        WorkspaceConfig { current_workspace: None, recent_workspaces: Vec::new() }
    }
}

/// The mathematical image of a workspace: its two strings as sequences.
pub ghost struct WsModel {
    pub path: Seq<char>,
    pub name: Seq<char>,
}

/// The model of a workspace value.
pub open spec fn ws_model(w: Workspace) -> WsModel {
    WsModel { path: w.path@, name: w.name@ }
}

/// The models of a sequence of workspaces.
pub open spec fn ws_models(s: Seq<Workspace>) -> Seq<WsModel> {
    s.map_values(|w: Workspace| ws_model(w))
}

/// The display name a path yields: its final segment, or the fixed
/// fallback label when the path has none.
pub open spec fn spec_workspace_name(p: Seq<char>) -> Seq<char> {
    match spec_file_name(p) {
        Some(n) => n,
        None => "Workspace"@,
    }
}

/// The entries of `items` whose path differs from `p`, in order.
pub open spec fn keep_other_paths(items: Seq<WsModel>, p: Seq<char>) -> Seq<WsModel> {
    items.filter(|m: WsModel| m.path != p)
}

/// The recent-workspaces discipline: the newly selected workspace first,
/// entries with its path removed, and the list truncated to ten.
pub open spec fn workspace_upsert(items: Seq<WsModel>, w: WsModel) -> Seq<WsModel> {
    clip_ten(seq![w] + keep_other_paths(items, w.path))
}

/// The entries of `items` selected by the flags `keep`, in order.
pub open spec fn mask_models(items: Seq<WsModel>, keep: Seq<bool>) -> Seq<WsModel>
    decreases items.len(),
{
    if items.len() == 0 || keep.len() == 0 {
        Seq::<WsModel>::empty()
    } else if keep.last() {
        mask_models(items.drop_last(), keep.drop_last()).push(items.last())
    } else {
        mask_models(items.drop_last(), keep.drop_last())
    }
}

/// Workspace information derived from a path alone: the path itself and
/// the display name of its final segment. Never fails.
pub fn get_workspace_info(path: String) -> (r: Workspace)
    ensures
        r.path@ == path@,
        r.name@ == spec_workspace_name(path@),
{
    let name = match get_file_name(path.as_str()) {
        Some(n) => n,
        None => String::from_str("Workspace"),
    };
    Workspace { path, name }
}

proof fn lemma_keep_other_paths_empty(p: Seq<char>)
    ensures
        keep_other_paths(Seq::<WsModel>::empty(), p) == Seq::<WsModel>::empty(),
{
    reveal(Seq::filter);
}

proof fn lemma_keep_other_paths_push(s: Seq<WsModel>, x: WsModel, p: Seq<char>)
    ensures
        keep_other_paths(s.push(x), p) == if x.path != p {
            keep_other_paths(s, p).push(x)
        } else {
            keep_other_paths(s, p)
        },
{
    reveal(Seq::filter);
    assert(s.push(x).drop_last() =~= s);
    assert(s.push(x).last() == x);
}

/// Selects `path` as the current workspace: records it and upserts it into
/// the recent list (deduplicated by path, moved to the front, truncated to
/// ten), leaving the new configuration ready to be persisted whole.
pub fn set_workspace(config: &mut WorkspaceConfig, path: String)
    ensures
        final(config).current_workspace is Some,
        final(config).current_workspace->0@ == path@,
        ws_models(final(config).recent_workspaces@) == workspace_upsert(
            ws_models(old(config).recent_workspaces@),
            WsModel { path: path@, name: spec_workspace_name(path@) },
        ),
{
    let ghost orig: Seq<WsModel> = ws_models(old(config).recent_workspaces@);
    let ghost m = WsModel { path: path@, name: spec_workspace_name(path@) };
    let ws = get_workspace_info(path.clone());
    let pcopy: String = path.clone();
    config.current_workspace = Some(path);
    let mut out: Vec<Workspace> = Vec::new();
    out.push(ws);
    proof {
        assert(orig.take(0) =~= Seq::<WsModel>::empty());
        lemma_keep_other_paths_empty(m.path);
        assert(seq![m] + keep_other_paths(orig.take(0), m.path) =~= seq![m]);
        assert(ws_models(out@) =~= seq![m]);
    }
    let mut i: usize = 0;
    while i < config.recent_workspaces.len()
        invariant
            i <= config.recent_workspaces@.len(),
            config.recent_workspaces@ == old(config).recent_workspaces@,
            orig == ws_models(config.recent_workspaces@),
            pcopy@ == m.path,
            1 <= out@.len() <= 10,
            ws_models(out@) == clip_ten(seq![m] + keep_other_paths(orig.take(i as int), m.path)),
        decreases config.recent_workspaces@.len() - i,
    {
        let ghost pre = seq![m] + keep_other_paths(orig.take(i as int), m.path);
        let ghost x: WsModel = orig[i as int];
        proof {
            assert(orig.take(i + 1) =~= orig.take(i as int).push(x));
            lemma_keep_other_paths_push(orig.take(i as int), x, m.path);
        }
        let cur: &Workspace = &config.recent_workspaces[i];
        let same: bool = cur.path.eq(&pcopy);
        proof {
            assert(x == ws_model(config.recent_workspaces@[i as int]));
            assert(same <==> x.path == m.path);
        }
        if !same && out.len() < 10 {
            let ghost before = out@;
            out.push(Workspace { path: cur.path.clone(), name: cur.name.clone() });
            proof {
                assert(ws_models(out@) =~= ws_models(before).push(x));
                assert(pre.len() <= 10);
                assert(seq![m] + keep_other_paths(orig.take(i + 1), m.path) =~= pre.push(x));
            }
        } else {
            proof {
                if same {
                    assert(keep_other_paths(orig.take(i + 1), m.path) == keep_other_paths(
                        orig.take(i as int),
                        m.path,
                    ));
                } else {
                    assert(out@.len() == 10);
                    assert(pre.len() >= 10);
                    assert(seq![m] + keep_other_paths(orig.take(i + 1), m.path) =~= pre.push(x));
                    assert(clip_ten(pre.push(x)) =~= clip_ten(pre));
                }
            }
        }
        i += 1;
    }
    proof {
        assert(orig.take(config.recent_workspaces@.len() as int) =~= orig);
    }
    config.recent_workspaces = out;
}

/// The current workspace, if one is recorded and its path still exists on
/// disk; a stale pointer is treated as "no workspace selected", never as
/// an error. Whether the path exists is read from the live filesystem, so
/// only the shape of a returned workspace is promised.
pub fn get_current_workspace(config: &WorkspaceConfig) -> (r: Option<Workspace>)
    ensures
        config.current_workspace is None ==> r is None,
        r is Some ==> config.current_workspace is Some && r->0.path@
            == config.current_workspace->0@ && r->0.name@ == spec_workspace_name(
            config.current_workspace->0@,
        ),
{
    match &config.current_workspace {
        None => None,
        Some(p) => {
            if file_exists(p.as_str()) {
                Some(get_workspace_info(p.clone()))
            } else {
                None
            }
        },
    }
}

/// The recent workspaces whose paths still exist on disk, in stored order;
/// missing ones are dropped from the result, not from storage. Existence
/// is read from the live filesystem, so the result is pinned only relative
/// to the per-entry observations, the flags of `mask_models`.
pub fn get_recent_workspaces(config: &WorkspaceConfig) -> (r: Vec<Workspace>)
    ensures
        exists|keep: Seq<bool>|
            keep.len() == config.recent_workspaces@.len() && ws_models(r@) == mask_models(
                ws_models(config.recent_workspaces@),
                keep,
            ),
{
    let ghost items = ws_models(config.recent_workspaces@);
    let mut out: Vec<Workspace> = Vec::new();
    let ghost mut keep: Seq<bool> = Seq::<bool>::empty();
    let mut i: usize = 0;
    proof {
        assert(items.take(0) =~= Seq::<WsModel>::empty());
        assert(ws_models(out@) =~= Seq::<WsModel>::empty());
    }
    while i < config.recent_workspaces.len()
        invariant
            i <= config.recent_workspaces@.len(),
            items == ws_models(config.recent_workspaces@),
            keep.len() == i,
            ws_models(out@) == mask_models(items.take(i as int), keep),
        decreases config.recent_workspaces@.len() - i,
    {
        let cur: &Workspace = &config.recent_workspaces[i];
        let ex: bool = file_exists(cur.path.as_str());
        let ghost keep0 = keep;
        proof {
            keep = keep.push(ex);
            assert(items.take(i + 1) =~= items.take(i as int).push(ws_model(
                config.recent_workspaces@[i as int],
            )));
            assert(items.take(i + 1).drop_last() =~= items.take(i as int));
            assert(keep.drop_last() =~= keep0);
        }
        if ex {
            let ghost before = out@;
            out.push(Workspace { path: cur.path.clone(), name: cur.name.clone() });
            proof {
                assert(ws_models(out@) =~= ws_models(before).push(ws_model(
                    config.recent_workspaces@[i as int],
                )));
            }
        }
        i += 1;
    }
    proof {
        assert(items.take(config.recent_workspaces@.len() as int) =~= items);
        assert(keep.len() == config.recent_workspaces@.len() && ws_models(out@) == mask_models(
            ws_models(config.recent_workspaces@),
            keep,
        ));
    }
    out
}

/// Law: the recent list never grows past ten entries, and the newly
/// selected workspace always stands at the front.
pub proof fn lemma_workspace_upsert_cap(items: Seq<WsModel>, w: WsModel)
    ensures
        1 <= workspace_upsert(items, w).len() <= 10,
        workspace_upsert(items, w)[0] == w,
{
    let full = seq![w] + keep_other_paths(items, w.path);
    assert(full[0] == w);
    if full.len() > 10 {
        assert(full.take(10)[0] == w);
    }
}

proof fn lemma_keep_other_paths_absent(items: Seq<WsModel>, p: Seq<char>)
    requires
        forall|j: int| 0 <= j < items.len() ==> (#[trigger] items[j]).path != p,
    ensures
        keep_other_paths(items, p) == items,
    decreases items.len(),
{
    reveal(Seq::filter);
    if items.len() > 0 {
        lemma_keep_other_paths_absent(items.drop_last(), p);
        assert(keep_other_paths(items, p) =~= items);
    }
}

proof fn lemma_keep_other_paths_unique(items: Seq<WsModel>, p: Seq<char>, i: int)
    requires
        0 <= i < items.len(),
        items[i].path == p,
        forall|a: int, b: int|
            0 <= a < b < items.len() ==> (#[trigger] items[a]).path != (#[trigger] items[b]).path,
    ensures
        keep_other_paths(items, p) == items.remove(i),
    decreases items.len(),
{
    reveal(Seq::filter);
    if i == items.len() - 1 {
        lemma_keep_other_paths_absent(items.drop_last(), p);
        assert(items.remove(i) =~= items.drop_last());
    } else {
        lemma_keep_other_paths_unique(items.drop_last(), p, i);
        assert(items.last().path != p);
        assert(keep_other_paths(items, p) =~= items.drop_last().remove(i).push(items.last()));
        assert(items.remove(i) =~= items.drop_last().remove(i).push(items.last()));
    }
}

/// Law: selecting a workspace that is already in the recent list (paths
/// being distinct) moves it to the front without growing or shrinking the
/// list.
pub proof fn lemma_workspace_upsert_reselect(items: Seq<WsModel>, w: WsModel, i: int)
    requires
        0 <= i < items.len(),
        items.len() <= 10,
        items[i].path == w.path,
        forall|a: int, b: int|
            0 <= a < b < items.len() ==> (#[trigger] items[a]).path != (#[trigger] items[b]).path,
    ensures
        workspace_upsert(items, w).len() == items.len(),
        workspace_upsert(items, w)[0] == w,
{
    lemma_keep_other_paths_unique(items, w.path, i);
    lemma_workspace_upsert_cap(items, w);
}

/// Law: selecting a workspace not yet in the recent list puts it in front
/// and keeps every stored entry that fits under the cap of ten.
pub proof fn lemma_workspace_upsert_new(items: Seq<WsModel>, w: WsModel)
    requires
        forall|j: int| 0 <= j < items.len() ==> (#[trigger] items[j]).path != w.path,
    ensures
        workspace_upsert(items, w).len() == if items.len() + 1 <= 10 {
            items.len() + 1
        } else {
            10 as nat
        },
        workspace_upsert(items, w)[0] == w,
{
    lemma_keep_other_paths_absent(items, w.path);
    lemma_workspace_upsert_cap(items, w);
}

} // verus!
