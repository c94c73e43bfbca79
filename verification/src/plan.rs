//! The mirroring engine: turns a local tree into a plan of remote calls.
//!
//! The engine never touches the network or the disk. It is handed the
//! shape of the local tree and answers with the exact ordered sequence of
//! protocol calls a driver must make: which remote directories to create,
//! which files to store where, and — for each store — the cumulative
//! ancestor chain to create lazily should the store fail for want of its
//! parent directory. The remote root is kept verbatim: segments stripped
//! from below the local root are appended to it with single slashes, and
//! the root itself is never resplit or normalized.

use vstd::prelude::*;

use crate::paths::{
    chain_of, is_seg, join, join_path, lemma_join_nonempty, lemma_seg_views_push,
    lemma_segments_wf, lemma_strip_root, mkdir_chain, path_join, push_char, seg_views, segments,
    split_segments, to_remote_form, translate,
};

verus! {

/// Everything needed to store one local file remotely: the translated
/// store path and, should the store fail because the destination
/// directory is missing, the cumulative ancestor directories to create
/// (shortest first) before the one retry.
#[derive(Debug, PartialEq, Eq)]
pub struct FilePlan {
    pub local: String,
    pub store: String,
    pub dirs: Vec<String>,
}

/// The ghost shape of a `FilePlan`.
pub struct FilePlanModel {
    pub local: Seq<char>,
    pub store: Seq<char>,
    pub dirs: Seq<Seq<char>>,
}

/// One remote call of a plan, in the order the driver must make them.
#[derive(Debug, PartialEq, Eq)]
pub enum Action {
    /// Create a remote directory, ignoring failure (it may already exist).
    MakeDir(String),
    /// Store one local file remotely, with lazy directory recovery.
    Upload(FilePlan),
    /// Report a batch input that is neither a file nor a directory.
    Unknown(String),
}

/// The ghost shape of an `Action`.
pub enum ActionModel {
    MakeDir(Seq<char>),
    Upload(FilePlanModel),
    Unknown(Seq<char>),
}

impl View for FilePlan {
    type V = FilePlanModel;

    open spec fn view(&self) -> FilePlanModel {
        FilePlanModel { local: self.local@, store: self.store@, dirs: seg_views(self.dirs@) }
    }
}

impl View for Action {
    type V = ActionModel;

    open spec fn view(&self) -> ActionModel {
        match self {
            Action::MakeDir(p) => ActionModel::MakeDir(p@),
            Action::Upload(fp) => ActionModel::Upload(fp@),
            Action::Unknown(p) => ActionModel::Unknown(p@),
        }
    }
}

/// The shape of a local directory: its full local path, the names of the
/// plain files directly inside it, and its subdirectories.
#[derive(Debug)]
pub struct DirTree {
    pub path: String,
    pub files: Vec<String>,
    pub subdirs: Vec<DirTree>,
}

/// The ghost view of a plan.
pub open spec fn abs_plan(s: Seq<Action>) -> Seq<ActionModel> {
    s.map_values(|a: Action| a@)
}

/// The upload action for one local file: the store path is recorded
/// verbatim, and the recovery chain is the cumulative ancestor prefixes
/// of that store path, shortest first, the full path itself excluded.
pub open spec fn upload_model(local: Seq<char>, store: Seq<char>) -> ActionModel {
    ActionModel::Upload(FilePlanModel { local, store, dirs: mkdir_chain(store) })
}

/// The segments of a walked node below the local root: the node's own
/// translated segments with the first `depth` stripped.
pub open spec fn strip_depth(segs: Seq<Seq<char>>, depth: int) -> Seq<Seq<char>> {
    if depth <= segs.len() {
        segs.skip(depth)
    } else {
        Seq::empty()
    }
}

/// The remote path of the node at local path `local`, walked with root
/// depth `depth` below the remote base `rbase` — the base kept verbatim,
/// the stripped segments appended below it.
pub open spec fn node_remote(rbase: Seq<char>, depth: int, local: Seq<char>, sep: char) -> Seq<
    char,
> {
    path_join(rbase, strip_depth(segments(translate(local, sep)), depth))
}

/// The upload action for the file `name` directly inside a walked
/// directory whose remote path is `rem`.
pub open spec fn file_action(
    dir_path: Seq<char>,
    name: Seq<char>,
    rem: Seq<char>,
    sep: char,
) -> ActionModel {
    upload_model(dir_path + seq![sep] + name, path_join(rem, segments(translate(name, sep))))
}

/// The upload actions for all plain files of one walked directory.
pub open spec fn file_actions(
    dir_path: Seq<char>,
    names: Seq<String>,
    rem: Seq<char>,
    sep: char,
) -> Seq<ActionModel> {
    names.map_values(|n: String| file_action(dir_path, n@, rem, sep))
}

/// The depth-first plan of one directory node: create the node's remote
/// directory (when its remote path is non-empty), store its files, then
/// handle each subdirectory in turn.
pub open spec fn tree_plan(t: DirTree, depth: int, rbase: Seq<char>, sep: char) -> Seq<ActionModel>
    decreases t,
{
    let rem = node_remote(rbase, depth, t.path@, sep);
    let mk: Seq<ActionModel> = if rem.len() > 0 {
        seq![ActionModel::MakeDir(rem)]
    } else {
        Seq::empty()
    };
    mk + file_actions(t.path@, t.files@, rem, sep) + subtree_plans(t.subdirs@, depth, rbase, sep)
}

/// The concatenated plans of a row of sibling subdirectories.
pub open spec fn subtree_plans(subs: Seq<DirTree>, depth: int, rbase: Seq<char>, sep: char) -> Seq<
    ActionModel,
>
    decreases subs,
{
    if subs.len() == 0 {
        Seq::empty()
    } else {
        subtree_plans(subs.drop_last(), depth, rbase, sep) + tree_plan(
            subs.last(),
            depth,
            rbase,
            sep,
        )
    }
}

/// Taking action views commutes with appending one action.
pub proof fn lemma_abs_plan_push(s: Seq<Action>, x: Action)
    ensures
        abs_plan(s.push(x)) =~= abs_plan(s).push(x@),
{
    assert forall|k: int| 0 <= k < s.len() + 1 implies #[trigger] abs_plan(s.push(x))[k]
        == abs_plan(s).push(x@)[k] by {
        if k < s.len() {
            assert(s.push(x)[k] == s[k]);
        } else {
            assert(s.push(x)[k] == x);
        }
    }
}

/// Plans one standalone file upload: translate the remote path, and list
/// the cumulative ancestor prefixes to create should the store fail.
pub fn upload_file_plan(local: &str, remote: &str, sep: char) -> (p: FilePlan)
    ensures
        ActionModel::Upload(p@) == upload_model(local@, translate(remote@, sep)),
{
    let store = to_remote_form(remote, sep);
    let dirs = chain_of(store.as_str());
    FilePlan { local: local.to_owned(), store, dirs }
}

/// Walks one directory node depth first, appending its plan: the node's
/// own directory creation, one upload per plain file, then each
/// subdirectory in turn.
fn plan_node(t: &DirTree, depth: usize, rbase: &str, sep: char, out: &mut Vec<Action>)
    ensures
        abs_plan(final(out)@) == abs_plan(old(out)@) + tree_plan(
            *t,
            depth as int,
            rbase@,
            sep,
        ),
    decreases *t,
{
    let ghost rem_model = node_remote(rbase@, depth as int, t.path@, sep);
    let tpath = to_remote_form(t.path.as_str(), sep);
    let tsegs = split_segments(tpath.as_str());
    let mut stripped: Vec<String> = Vec::new();
    let mut j: usize = 0;
    proof {
        assert(strip_depth(seg_views(tsegs@).take(0), depth as int) =~= Seq::<Seq<char>>::empty());
        assert(seg_views(stripped@) =~= strip_depth(seg_views(tsegs@).take(0), depth as int));
    }
    while j < tsegs.len()
        invariant
            j <= tsegs@.len(),
            seg_views(stripped@) =~= strip_depth(seg_views(tsegs@).take(j as int), depth as int),
        decreases tsegs@.len() - j,
    {
        let ghost vs = seg_views(tsegs@);
        if j >= depth {
            let ghost s0 = stripped@;
            let item = tsegs[j].clone();
            let ghost pushed: String = item;
            stripped.push(item);
            proof {
                lemma_seg_views_push(s0, pushed);
                assert(strip_depth(vs.take(j + 1), depth as int) =~= strip_depth(
                    vs.take(j as int),
                    depth as int,
                ).push(vs[j as int]));
                assert(seg_views(stripped@) =~= strip_depth(vs.take(j + 1), depth as int));
            }
        } else {
            proof {
                assert(strip_depth(vs.take(j + 1), depth as int) =~= Seq::<Seq<char>>::empty());
                assert(strip_depth(vs.take(j as int), depth as int) =~= Seq::<Seq<char>>::empty());
                assert(seg_views(stripped@) =~= strip_depth(vs.take(j + 1), depth as int));
            }
        }
        j = j + 1;
    }
    let rem = join_path(rbase, &stripped);
    proof {
        assert(seg_views(tsegs@).take(tsegs@.len() as int) =~= seg_views(tsegs@));
        assert(rem@ == rem_model);
    }
    let ghost mkm: Seq<ActionModel> = if rem_model.len() > 0 {
        seq![ActionModel::MakeDir(rem_model)]
    } else {
        Seq::empty()
    };
    if rem.unicode_len() > 0 {
        let ghost o0 = out@;
        let act = Action::MakeDir(rem.clone());
        let ghost actg: Action = act;
        out.push(act);
        proof {
            lemma_abs_plan_push(o0, actg);
            assert(abs_plan(out@) =~= abs_plan(old(out)@) + mkm);
        }
    } else {
        proof {
            assert(abs_plan(out@) =~= abs_plan(old(out)@) + mkm);
        }
    }
    let mut fi: usize = 0;
    proof {
        assert(file_actions(t.path@, t.files@.take(0), rem_model, sep)
            =~= Seq::<ActionModel>::empty());
        assert(abs_plan(out@) =~= abs_plan(old(out)@) + mkm + file_actions(
            t.path@,
            t.files@.take(0),
            rem_model,
            sep,
        ));
    }
    while fi < t.files.len()
        invariant
            fi <= t.files@.len(),
            rem_model == node_remote(rbase@, depth as int, t.path@, sep),
            rem@ == rem_model,
            mkm == if rem_model.len() > 0 {
                seq![ActionModel::MakeDir(rem_model)]
            } else {
                Seq::<ActionModel>::empty()
            },
            abs_plan(out@) == abs_plan(old(out)@) + mkm + file_actions(
                t.path@,
                t.files@.take(fi as int),
                rem_model,
                sep,
            ),
        decreases t.files@.len() - fi,
    {
        let name = &t.files[fi];
        let mut local = t.path.clone();
        push_char(&mut local, sep);
        local.append(name.as_str());
        proof {
            assert(local@ =~= t.path@ + seq![sep] + name@);
        }
        let tname = to_remote_form(name.as_str(), sep);
        let nsegs = split_segments(tname.as_str());
        let store = join_path(rem.as_str(), &nsegs);
        let dirs = chain_of(store.as_str());
        let fp = FilePlan { local, store, dirs };
        let ghost o0 = out@;
        let act = Action::Upload(fp);
        let ghost actg: Action = act;
        out.push(act);
        proof {
            lemma_abs_plan_push(o0, actg);
            assert(actg@ == file_action(t.path@, t.files@[fi as int]@, rem_model, sep));
            assert(t.files@.take(fi + 1).drop_last() =~= t.files@.take(fi as int));
            assert(file_actions(t.path@, t.files@.take(fi + 1), rem_model, sep) =~= file_actions(
                t.path@,
                t.files@.take(fi as int),
                rem_model,
                sep,
            ).push(file_action(t.path@, t.files@[fi as int]@, rem_model, sep)));
            assert(abs_plan(out@) =~= abs_plan(old(out)@) + mkm + file_actions(
                t.path@,
                t.files@.take(fi + 1),
                rem_model,
                sep,
            ));
        }
        fi = fi + 1;
    }
    let ghost fam = file_actions(t.path@, t.files@, rem_model, sep);
    proof {
        assert(t.files@.take(t.files@.len() as int) =~= t.files@);
    }
    let mut si: usize = 0;
    proof {
        assert(subtree_plans(t.subdirs@.take(0), depth as int, rbase@, sep)
            =~= Seq::<ActionModel>::empty());
        assert(abs_plan(out@) =~= abs_plan(old(out)@) + mkm + fam + subtree_plans(
            t.subdirs@.take(0),
            depth as int,
            rbase@,
            sep,
        ));
    }
    while si < t.subdirs.len()
        invariant
            si <= t.subdirs@.len(),
            rem_model == node_remote(rbase@, depth as int, t.path@, sep),
            mkm == if rem_model.len() > 0 {
                seq![ActionModel::MakeDir(rem_model)]
            } else {
                Seq::<ActionModel>::empty()
            },
            fam == file_actions(t.path@, t.files@, rem_model, sep),
            abs_plan(out@) == abs_plan(old(out)@) + mkm + fam + subtree_plans(
                t.subdirs@.take(si as int),
                depth as int,
                rbase@,
                sep,
            ),
        decreases t.subdirs@.len() - si,
    {
        proof {
            assert(decreases_to!(*t => t.subdirs@[si as int]));
        }
        plan_node(&t.subdirs[si], depth, rbase, sep, out);
        proof {
            assert(t.subdirs@.take(si + 1).drop_last() =~= t.subdirs@.take(si as int));
            assert(t.subdirs@.take(si + 1).last() == t.subdirs@[si as int]);
            assert(subtree_plans(t.subdirs@.take(si + 1), depth as int, rbase@, sep)
                == subtree_plans(t.subdirs@.take(si as int), depth as int, rbase@, sep) + tree_plan(
                t.subdirs@[si as int],
                depth as int,
                rbase@,
                sep,
            ));
            assert(abs_plan(out@) =~= abs_plan(old(out)@) + mkm + fam + subtree_plans(
                t.subdirs@.take(si + 1),
                depth as int,
                rbase@,
                sep,
            ));
        }
        si = si + 1;
    }
    proof {
        assert(t.subdirs@.take(t.subdirs@.len() as int) =~= t.subdirs@);
        assert(abs_plan(out@) =~= abs_plan(old(out)@) + tree_plan(*t, depth as int, rbase@, sep));
    }
}

/// The plan of a whole directory-tree upload: the walked root's own
/// segment count is stripped from every descendant, and the remainder is
/// appended below the translated remote root, which is kept verbatim.
pub open spec fn tree_plan_full(t: DirTree, remote_root: Seq<char>, sep: char) -> Seq<ActionModel> {
    tree_plan(
        t,
        segments(translate(t.path@, sep)).len() as int,
        translate(remote_root, sep),
        sep,
    )
}

/// Plans the upload of a whole local directory tree below `remote_root`.
pub fn upload_tree_plan(tree: &DirTree, remote_root: &str, sep: char) -> (r: Vec<Action>)
    ensures
        abs_plan(r@) == tree_plan_full(*tree, remote_root@, sep),
{
    let rt = to_remote_form(remote_root, sep);
    let tp = to_remote_form(tree.path.as_str(), sep);
    let tsegs = split_segments(tp.as_str());
    let depth = tsegs.len();
    let mut out: Vec<Action> = Vec::new();
    plan_node(tree, depth, rt.as_str(), sep, &mut out);
    proof {
        assert(abs_plan(Seq::<Action>::empty()) =~= Seq::<ActionModel>::empty());
        assert(Seq::<ActionModel>::empty() + tree_plan_full(*tree, remote_root@, sep)
            =~= tree_plan_full(*tree, remote_root@, sep));
    }
    out
}

/// What a batch input turned out to be on the local disk.
#[derive(Debug)]
pub enum Entry {
    /// A plain file.
    File,
    /// A directory, with its walked shape.
    Dir(DirTree),
    /// Neither a file nor a directory.
    Missing,
}

/// One batch input: the path as the caller gave it, and what it is.
#[derive(Debug)]
pub struct BatchItem {
    pub path: String,
    pub entry: Entry,
}

/// The plan of one batch input: its remote target is the remote base
/// directory joined with the path exactly as given; a file becomes one
/// upload, a directory a whole tree plan, and anything else one report.
pub open spec fn item_plan(item: BatchItem, remote_base: Seq<char>, sep: char) -> Seq<ActionModel> {
    let target = remote_base + seq![sep] + item.path@;
    match item.entry {
        Entry::File => seq![upload_model(item.path@, translate(target, sep))],
        Entry::Dir(t) => tree_plan(
            t,
            segments(translate(item.path@, sep)).len() as int,
            translate(target, sep),
            sep,
        ),
        Entry::Missing => seq![ActionModel::Unknown(item.path@)],
    }
}

/// The concatenated plans of a whole batch, in input order.
pub open spec fn batch_plan(items: Seq<BatchItem>, remote_base: Seq<char>, sep: char) -> Seq<
    ActionModel,
>
    decreases items,
{
    if items.len() == 0 {
        Seq::empty()
    } else {
        batch_plan(items.drop_last(), remote_base, sep) + item_plan(items.last(), remote_base, sep)
    }
}

/// Plans a whole batch of inputs against one remote base directory,
/// sequentially and in input order.
pub fn upload_many_plan(items: &Vec<BatchItem>, remote_base: &str, sep: char) -> (r: Vec<Action>)
    ensures
        abs_plan(r@) == batch_plan(items@, remote_base@, sep),
{
    let mut out: Vec<Action> = Vec::new();
    let mut ii: usize = 0;
    proof {
        assert(abs_plan(out@) =~= batch_plan(items@.take(0), remote_base@, sep));
    }
    while ii < items.len()
        invariant
            ii <= items@.len(),
            abs_plan(out@) == batch_plan(items@.take(ii as int), remote_base@, sep),
        decreases items@.len() - ii,
    {
        let item = &items[ii];
        let mut target = remote_base.to_owned();
        push_char(&mut target, sep);
        target.append(item.path.as_str());
        proof {
            assert(target@ =~= remote_base@ + seq![sep] + item.path@);
        }
        let ghost o0 = out@;
        match &item.entry {
            Entry::File => {
                let fp = upload_file_plan(item.path.as_str(), target.as_str(), sep);
                let act = Action::Upload(fp);
                let ghost actg: Action = act;
                out.push(act);
                proof {
                    lemma_abs_plan_push(o0, actg);
                    assert(seq![actg@] =~= item_plan(items@[ii as int], remote_base@, sep));
                    assert(abs_plan(o0).push(actg@) =~= abs_plan(o0) + seq![actg@]);
                }
            },
            Entry::Dir(t) => {
                let tp = to_remote_form(item.path.as_str(), sep);
                let dsegs = split_segments(tp.as_str());
                let depth = dsegs.len();
                let rt = to_remote_form(target.as_str(), sep);
                plan_node(t, depth, rt.as_str(), sep, &mut out);
                proof {
                    assert(abs_plan(out@) == abs_plan(o0) + item_plan(
                        items@[ii as int],
                        remote_base@,
                        sep,
                    ));
                }
            },
            Entry::Missing => {
                let act = Action::Unknown(item.path.clone());
                let ghost actg: Action = act;
                out.push(act);
                proof {
                    lemma_abs_plan_push(o0, actg);
                    assert(seq![actg@] =~= item_plan(items@[ii as int], remote_base@, sep));
                    assert(abs_plan(o0).push(actg@) =~= abs_plan(o0) + seq![actg@]);
                }
            },
        }
        proof {
            assert(items@.take(ii + 1).drop_last() =~= items@.take(ii as int));
            assert(items@.take(ii + 1).last() == items@[ii as int]);
            assert(batch_plan(items@.take(ii + 1), remote_base@, sep) == batch_plan(
                items@.take(ii as int),
                remote_base@,
                sep,
            ) + item_plan(items@[ii as int], remote_base@, sep));
        }
        ii = ii + 1;
    }
    proof {
        assert(items@.take(items@.len() as int) =~= items@);
    }
    out
}

/// True of the actions that store a file.
pub open spec fn is_upload(a: ActionModel) -> bool {
    a matches ActionModel::Upload(_)
}

/// The upload actions of a plan, in order, every other action dropped.
pub open spec fn uploads_of(p: Seq<ActionModel>) -> Seq<ActionModel> {
    p.filter(|a: ActionModel| is_upload(a))
}

/// A row of upload actions passes the upload filter unchanged.
proof fn lemma_filter_all_uploads(s: Seq<ActionModel>)
    requires
        forall|i: int| 0 <= i < s.len() ==> is_upload(#[trigger] s[i]),
    ensures
        uploads_of(s) == s,
    decreases s.len(),
{
    reveal(Seq::filter);
    if s.len() == 0 {
    } else {
        assert forall|i: int| 0 <= i < s.drop_last().len() implies is_upload(
            #[trigger] s.drop_last()[i],
        ) by {
            assert(s.drop_last()[i] == s[i]);
        }
        lemma_filter_all_uploads(s.drop_last());
        assert(is_upload(s[s.len() - 1]));
        assert(s.drop_last().push(s.last()) =~= s);
    }
}

/// The files of one directory node and of everything below it, each
/// exactly once, in the walk's order, with their exact store paths.
pub open spec fn tree_files(t: DirTree, depth: int, rbase: Seq<char>, sep: char) -> Seq<ActionModel>
    decreases t,
{
    file_actions(t.path@, t.files@, node_remote(rbase, depth, t.path@, sep), sep) + subtree_files(
        t.subdirs@,
        depth,
        rbase,
        sep,
    )
}

/// The files below a row of sibling subdirectories.
pub open spec fn subtree_files(subs: Seq<DirTree>, depth: int, rbase: Seq<char>, sep: char) -> Seq<
    ActionModel,
>
    decreases subs,
{
    if subs.len() == 0 {
        Seq::empty()
    } else {
        subtree_files(subs.drop_last(), depth, rbase, sep) + tree_files(
            subs.last(),
            depth,
            rbase,
            sep,
        )
    }
}

/// Completeness of the walk: a tree plan stores exactly one upload per
/// file reachable under the walked root, in walk order, at the remapped
/// remote path — and stores nothing else.
pub proof fn lemma_tree_completeness(t: DirTree, depth: int, rbase: Seq<char>, sep: char)
    ensures
        uploads_of(tree_plan(t, depth, rbase, sep)) == tree_files(t, depth, rbase, sep),
    decreases t,
{
    reveal_with_fuel(Seq::filter, 3);
    let pred = |a: ActionModel| is_upload(a);
    let rem = node_remote(rbase, depth, t.path@, sep);
    let mk: Seq<ActionModel> = if rem.len() > 0 {
        seq![ActionModel::MakeDir(rem)]
    } else {
        Seq::empty()
    };
    let fa = file_actions(t.path@, t.files@, rem, sep);
    let sub = subtree_plans(t.subdirs@, depth, rbase, sep);
    Seq::<ActionModel>::filter_distributes_over_add(mk + fa, sub, pred);
    Seq::<ActionModel>::filter_distributes_over_add(mk, fa, pred);
    if rem.len() > 0 {
        assert(mk.drop_last() =~= Seq::<ActionModel>::empty());
        assert(mk.filter(pred) =~= Seq::<ActionModel>::empty());
    } else {
        assert(mk.len() == 0);
        assert(mk.filter(pred) =~= Seq::<ActionModel>::empty());
    }
    assert forall|i: int| 0 <= i < fa.len() implies is_upload(#[trigger] fa[i]) by {
        assert(fa[i] == file_action(t.path@, t.files@[i]@, rem, sep));
    }
    lemma_filter_all_uploads(fa);
    lemma_subtree_completeness(t.subdirs@, depth, rbase, sep);
    assert(Seq::<ActionModel>::empty() + fa =~= fa);
    assert(uploads_of(tree_plan(t, depth, rbase, sep)) =~= tree_files(t, depth, rbase, sep));
}

/// Completeness over a row of sibling subdirectories.
proof fn lemma_subtree_completeness(subs: Seq<DirTree>, depth: int, rbase: Seq<char>, sep: char)
    ensures
        uploads_of(subtree_plans(subs, depth, rbase, sep)) == subtree_files(subs, depth, rbase, sep),
    decreases subs,
{
    reveal(Seq::filter);
    let pred = |a: ActionModel| is_upload(a);
    if subs.len() == 0 {
        assert(uploads_of(Seq::<ActionModel>::empty()) =~= Seq::<ActionModel>::empty());
    } else {
        lemma_subtree_completeness(subs.drop_last(), depth, rbase, sep);
        lemma_tree_completeness(subs.last(), depth, rbase, sep);
        Seq::<ActionModel>::filter_distributes_over_add(
            subtree_plans(subs.drop_last(), depth, rbase, sep),
            tree_plan(subs.last(), depth, rbase, sep),
            pred,
        );
    }
}

/// Depth remapping: a node that lies below the walked local root at
/// relative path `rel` — its local path is the root, one separator, then
/// `rel` — is mapped to the segments of `rel`, in unchanged order,
/// appended below the remote base, which is kept verbatim.
pub proof fn lemma_depth_remapping(root: Seq<char>, rel: Seq<char>, rbase: Seq<char>, sep: char)
    ensures
        node_remote(
            rbase,
            segments(translate(root, sep)).len() as int,
            root + seq![sep] + rel,
            sep,
        ) == path_join(rbase, segments(translate(rel, sep))),
{
    lemma_strip_root(root, rel, sep);
    let all = segments(translate(root + seq![sep] + rel, sep));
    let d = segments(translate(root, sep)).len() as int;
    assert(d <= all.len());
    assert(strip_depth(all, d) == all.skip(d));
}

/// A recorded child path literally extends its parent's: the parent's
/// path, one native separator, then a non-empty remainder.
pub open spec fn extends_path(child: Seq<char>, parent: Seq<char>, sep: char) -> bool {
    child.len() > parent.len() + 1 && child.take(parent.len() as int) == parent && child[parent.len() as int]
        == sep
}

/// A coherently walked tree: every subdirectory's recorded path extends
/// its parent's recorded path, all the way down. A walk of a real
/// filesystem produces exactly such trees.
pub open spec fn wf_tree(t: DirTree, sep: char) -> bool
    decreases t,
{
    forall|i: int|
        0 <= i < t.subdirs@.len() ==> extends_path(#[trigger] t.subdirs@[i].path@, t.path@, sep)
            && wf_tree(t.subdirs@[i], sep)
}

/// Stripping a prefix shorter than the left half leaves the right half
/// whole.
proof fn lemma_strip_depth_concat(a: Seq<Seq<char>>, b: Seq<Seq<char>>, d: int)
    requires
        0 <= d <= a.len(),
    ensures
        strip_depth(a + b, d) == strip_depth(a, d) + b,
{
    assert(strip_depth(a + b, d) =~= strip_depth(a, d) + b);
}

/// Appending below an already-appended base is appending both rows at
/// once, as long as the first row's pieces are proper segments.
proof fn lemma_path_join_assoc(base: Seq<char>, a: Seq<Seq<char>>, b: Seq<Seq<char>>)
    requires
        forall|i: int| 0 <= i < a.len() ==> is_seg(#[trigger] a[i]),
    ensures
        path_join(path_join(base, a), b) == path_join(base, a + b),
{
    if b.len() == 0 {
        assert(a + b =~= a);
    } else if a.len() == 0 {
        assert(a + b =~= b);
    } else {
        crate::paths::lemma_join_concat(a, b);
        lemma_join_nonempty(a);
        if base.len() == 0 {
            assert(path_join(base, a) == join(a));
            assert(path_join(join(a), b) == join(a) + seq!['/'] + join(b));
        } else {
            assert(path_join(base, a) == base + seq!['/'] + join(a));
            assert((base + seq!['/'] + join(a)) + seq!['/'] + join(b) =~= base + seq!['/'] + (join(
                a,
            ) + seq!['/'] + join(b)));
        }
    }
}

/// Remapping, over a whole coherent tree: every planned upload stores its
/// file at the path computed from the file's own local path alone —
/// translated, the first `depth` segments stripped, the rest appended in
/// order below the remote base, which is kept verbatim. Together with
/// the completeness of the walk this pins every store of a tree plan.
pub proof fn lemma_stores_follow_locals(t: DirTree, depth: int, rbase: Seq<char>, sep: char)
    requires
        0 <= depth <= segments(translate(t.path@, sep)).len(),
        wf_tree(t, sep),
    ensures
        forall|k: int|
            0 <= k < tree_files(t, depth, rbase, sep).len() ==> ((#[trigger] tree_files(
                t,
                depth,
                rbase,
                sep,
            )[k]) matches ActionModel::Upload(fp) && fp.store == path_join(
                rbase,
                strip_depth(segments(translate(fp.local, sep)), depth),
            )),
    decreases t,
{
    let rem = node_remote(rbase, depth, t.path@, sep);
    let fa = file_actions(t.path@, t.files@, rem, sep);
    let sf = subtree_files(t.subdirs@, depth, rbase, sep);
    let tsegs = segments(translate(t.path@, sep));
    assert forall|k: int| 0 <= k < fa.len() implies ((#[trigger] fa[k]) matches ActionModel::Upload(
        fp,
    ) && fp.store == path_join(
        rbase,
        strip_depth(segments(translate(fp.local, sep)), depth),
    )) by {
        let name = t.files@[k]@;
        assert(fa[k] == file_action(t.path@, name, rem, sep));
        lemma_strip_root(t.path@, name, sep);
        lemma_strip_depth_concat(tsegs, segments(translate(name, sep)), depth);
        lemma_segments_wf(translate(t.path@, sep));
        assert forall|i: int| 0 <= i < strip_depth(tsegs, depth).len() implies is_seg(
            #[trigger] strip_depth(tsegs, depth)[i],
        ) by {
            assert(strip_depth(tsegs, depth)[i] == tsegs.skip(depth)[i]);
            assert(tsegs.skip(depth)[i] == tsegs[i + depth]);
            assert(is_seg(tsegs[i + depth]));
        }
        lemma_path_join_assoc(rbase, strip_depth(tsegs, depth), segments(translate(name, sep)));
        assert(strip_depth(segments(translate(t.path@ + seq![sep] + name, sep)), depth)
            =~= strip_depth(tsegs, depth) + segments(translate(name, sep)));
    }
    lemma_subtree_stores_follow_locals(t.subdirs@, t.path@, depth, rbase, sep);
    assert forall|k: int| 0 <= k < tree_files(t, depth, rbase, sep).len() implies ((
    #[trigger] tree_files(t, depth, rbase, sep)[k]) matches ActionModel::Upload(fp) && fp.store
        == path_join(rbase, strip_depth(segments(translate(fp.local, sep)), depth))) by {
        if k < fa.len() {
            assert(tree_files(t, depth, rbase, sep)[k] == fa[k]);
        } else {
            assert(tree_files(t, depth, rbase, sep)[k] == sf[k - fa.len()]);
        }
    }
}

/// The same remapping, over a row of coherent sibling subdirectories.
proof fn lemma_subtree_stores_follow_locals(
    subs: Seq<DirTree>,
    parent: Seq<char>,
    depth: int,
    rbase: Seq<char>,
    sep: char,
)
    requires
        0 <= depth <= segments(translate(parent, sep)).len(),
        forall|i: int|
            0 <= i < subs.len() ==> extends_path(#[trigger] subs[i].path@, parent, sep) && wf_tree(
                subs[i],
                sep,
            ),
    ensures
        forall|k: int|
            0 <= k < subtree_files(subs, depth, rbase, sep).len() ==> ((#[trigger] subtree_files(
                subs,
                depth,
                rbase,
                sep,
            )[k]) matches ActionModel::Upload(fp) && fp.store == path_join(
                rbase,
                strip_depth(segments(translate(fp.local, sep)), depth),
            )),
    decreases subs,
{
    if subs.len() == 0 {
    } else {
        assert forall|i: int| 0 <= i < subs.drop_last().len() implies extends_path(
            #[trigger] subs.drop_last()[i].path@,
            parent,
            sep,
        ) && wf_tree(subs.drop_last()[i], sep) by {
            assert(subs.drop_last()[i] == subs[i]);
        }
        lemma_subtree_stores_follow_locals(subs.drop_last(), parent, depth, rbase, sep);
        let child = subs.last();
        assert(extends_path(child.path@, parent, sep));
        let suffix = child.path@.skip(parent.len() as int + 1);
        assert(child.path@ =~= parent + seq![sep] + suffix);
        lemma_strip_root(parent, suffix, sep);
        assert(depth <= segments(translate(child.path@, sep)).len());
        lemma_stores_follow_locals(child, depth, rbase, sep);
        let a = subtree_files(subs.drop_last(), depth, rbase, sep);
        let b = tree_files(child, depth, rbase, sep);
        assert forall|k: int| 0 <= k < subtree_files(subs, depth, rbase, sep).len() implies ((
        #[trigger] subtree_files(subs, depth, rbase, sep)[k]) matches ActionModel::Upload(fp)
            && fp.store == path_join(
            rbase,
            strip_depth(segments(translate(fp.local, sep)), depth),
        )) by {
            if k < a.len() {
                assert(subtree_files(subs, depth, rbase, sep)[k] == a[k]);
            } else {
                assert(subtree_files(subs, depth, rbase, sep)[k] == b[k - a.len()]);
            }
        }
    }
}

/// The store paths that executing a plan writes.
pub open spec fn stores_of(p: Seq<ActionModel>) -> Set<Seq<char>>
    decreases p,
{
    if p.len() == 0 {
        Set::empty()
    } else {
        let rest = stores_of(p.drop_last());
        match p.last() {
            ActionModel::Upload(fp) => rest.insert(fp.store),
            _ => rest,
        }
    }
}

/// The set of remote files after a driver has executed a plan against a
/// store holding `files`: each store writes its path (overwriting is
/// invisible in the set), directory creations touch no files.
pub open spec fn files_after(files: Set<Seq<char>>, p: Seq<ActionModel>) -> Set<Seq<char>>
    decreases p,
{
    if p.len() == 0 {
        files
    } else {
        let rest = files_after(files, p.drop_last());
        match p.last() {
            ActionModel::Upload(fp) => rest.insert(fp.store),
            _ => rest,
        }
    }
}

/// Executing a plan adds exactly its store paths to the remote files.
pub proof fn lemma_files_after_union(files: Set<Seq<char>>, p: Seq<ActionModel>)
    ensures
        files_after(files, p) == files.union(stores_of(p)),
    decreases p,
{
    if p.len() == 0 {
        assert(files.union(Set::empty()) =~= files);
    } else {
        lemma_files_after_union(files, p.drop_last());
        match p.last() {
            ActionModel::Upload(fp) => {
                assert(files.union(stores_of(p.drop_last())).insert(fp.store) =~= files.union(
                    stores_of(p),
                ));
            },
            _ => {
                assert(stores_of(p) == stores_of(p.drop_last()));
            },
        }
    }
}

/// Idempotence: executing the same plan twice leaves exactly the remote
/// files that executing it once leaves — repeated directory creations
/// fail silently and repeated stores overwrite.
pub proof fn lemma_plan_idempotent(files: Set<Seq<char>>, p: Seq<ActionModel>)
    ensures
        files_after(files_after(files, p), p) == files_after(files, p),
{
    lemma_files_after_union(files, p);
    lemma_files_after_union(files.union(stores_of(p)), p);
    assert(files.union(stores_of(p)).union(stores_of(p)) =~= files.union(stores_of(p)));
}

/// Idempotence of a directory-tree upload: mirroring the same local tree
/// twice below the same remote root produces the same final set of
/// remote files as mirroring it once.
pub proof fn lemma_tree_upload_idempotent(
    t: DirTree,
    remote_root: Seq<char>,
    sep: char,
    files: Set<Seq<char>>,
)
    ensures
        files_after(
            files_after(files, tree_plan_full(t, remote_root, sep)),
            tree_plan_full(t, remote_root, sep),
        ) == files_after(files, tree_plan_full(t, remote_root, sep)),
{
    lemma_plan_idempotent(files, tree_plan_full(t, remote_root, sep));
}

} // verus!
