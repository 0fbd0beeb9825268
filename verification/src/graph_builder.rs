//! The builder of co-change graphs: it takes the commits of a history in,
//! oldest first, and hands out the graph of all eras at the end.

use vstd::prelude::*;
use crate::builder_lemmas::{
    lemma_commits_of_eras_update, lemma_initial_wf, lemma_taken_in_wf, lemma_with_new_era_wf,
};
use crate::builder_model::{
    builder_wf, count_items, deleted_among, deleted_paths, finalized, finalized_edge,
    finalized_era, finalized_node, finalized_nodes, first_n, has_room, initial,
    should_start_new_era, stats_fit, taken_in, top_files, weight_items, with_commit, with_new_era,
    BuilderModel, DELETION_THRESHOLD, ERA_CAP, MIN_ERA_COMMITS, TOP_FILES,
};
use crate::era_lemmas::{
    lemma_count_paths, lemma_same_links,
    edge_weight, lemma_add_half_edge, lemma_commit_paths, lemma_link_upto, lemma_occurrences,
    lemma_prefix_sums, lemma_record_files, lemma_weight_between,
};
use crate::era_model::{
    count_path, count_paths,
    add_half_edge, added_lines, blank_node, bump_edge, commit_paths, has_node, ingest, link,
    link_upto, nodes_wf, path_items, record_files, weight_between, edge_targets, find_edge,
    find_node, node_of, node_paths, record_file, removed_lines, sound, touched,
    weight_sum, EdgeModel, EraModel, NodeModel,
};
use crate::file_graph::{
    changed_file_views, file_node_views, text_of, ChangedFile, Edge, Era, FileGraph, FileNode,
};
use crate::laws::{graph_in_order, lemma_finalized_in_order};
use crate::keys::{distinct, find_key, lemma_position_of_key, position, position_from, texts};
use crate::ranking::{
    insert_ranked, lemma_ranked_content, rank_paths, rank_views, ranked, RankEntry,
};

verus! {

struct EdgeBuilder {
    target: String,
    weight: u32,
}

struct NodeBuilder {
    path: String,
    additions: u32,
    deletions: u32,
    commit_count: u32,
    edges: Vec<EdgeBuilder>,
}

struct EraBuilder {
    era_index: u32,
    nodes: Vec<NodeBuilder>,
    commits_in_era: u32,
    reset_commit: Option<String>,
}

impl View for EdgeBuilder {
    type V = EdgeModel;

    closed spec fn view(&self) -> EdgeModel {
        EdgeModel { target: self.target@, weight: self.weight as nat }
    }
}

spec fn edge_models(s: Seq<EdgeBuilder>) -> Seq<EdgeModel> {
    Seq::new(s.len(), |i: int| s[i]@)
}

impl View for NodeBuilder {
    type V = NodeModel;

    closed spec fn view(&self) -> NodeModel {
        NodeModel {
            path: self.path@,
            additions: self.additions as nat,
            deletions: self.deletions as nat,
            commit_count: self.commit_count as nat,
            edges: edge_models(self.edges@),
        }
    }
}

spec fn node_models(s: Seq<NodeBuilder>) -> Seq<NodeModel> {
    Seq::new(s.len(), |i: int| s[i]@)
}

impl View for EraBuilder {
    type V = EraModel;

    closed spec fn view(&self) -> EraModel {
        EraModel {
            era_index: self.era_index as nat,
            nodes: node_models(self.nodes@),
            commits_in_era: self.commits_in_era as nat,
            reset_commit: text_of(self.reset_commit),
        }
    }
}

spec fn era_models(s: Seq<EraBuilder>) -> Seq<EraModel> {
    Seq::new(s.len(), |i: int| s[i]@)
}

/// Where the node of `path` stands in `nodes`, or their number where it has none.
fn find_node_index(nodes: &Vec<NodeBuilder>, path: &String) -> (r: usize)
    ensures
        r == find_node(node_models(nodes@), path@),
{
    let ghost keys = node_paths(node_models(nodes@));
    let mut i: usize = 0;
    while i < nodes.len()
        invariant
            i <= nodes.len(),
            keys == node_paths(node_models(nodes@)),
            position(keys, path@) == position_from(keys, path@, i as int),
        decreases nodes.len() - i,
    {
        if nodes[i].path == *path {
            return i;
        }
        i += 1;
    }
    i
}

/// Where the half-edge to `target` stands in `edges`, or their number where there is none.
fn find_edge_index(edges: &Vec<EdgeBuilder>, target: &String) -> (r: usize)
    ensures
        r == find_edge(edge_models(edges@), target@),
{
    let ghost keys = edge_targets(edge_models(edges@));
    let mut i: usize = 0;
    while i < edges.len()
        invariant
            i <= edges.len(),
            keys == edge_targets(edge_models(edges@)),
            position(keys, target@) == position_from(keys, target@, i as int),
        decreases edges.len() - i,
    {
        if edges[i].target == *target {
            return i;
        }
        i += 1;
    }
    i
}

/// Counts one more joint change with `target`.
fn bump(edges: &mut Vec<EdgeBuilder>, target: &String)
    requires
        edge_weight(edge_models(old(edges)@), target@) < u32::MAX,
    ensures
        edge_models(final(edges)@) == bump_edge(edge_models(old(edges)@), target@),
{
    let k = find_edge_index(edges, target);
    if k < edges.len() {
        edges[k].weight = edges[k].weight + 1;
        assert(edge_models(edges@) =~= bump_edge(edge_models(old(edges)@), target@));
    } else {
        edges.push(EdgeBuilder { target: target.clone(), weight: 1 });
        assert(edge_models(edges@) =~= bump_edge(edge_models(old(edges)@), target@));
    }
}

/// Records the lines of the change `f` at the node of its path, or at a new node.
fn record_change(nodes: &mut Vec<NodeBuilder>, f: &ChangedFile)
    requires
        node_of(node_models(old(nodes)@), f.path@).additions + f.additions <= u32::MAX,
        node_of(node_models(old(nodes)@), f.path@).deletions + f.deletions <= u32::MAX,
    ensures
        node_models(final(nodes)@) == record_file(node_models(old(nodes)@), f@),
{
    let i = find_node_index(nodes, &f.path);
    if i < nodes.len() {
        nodes[i].additions = nodes[i].additions + f.additions;
        nodes[i].deletions = nodes[i].deletions + f.deletions;
        assert(node_models(nodes@) =~= record_file(node_models(old(nodes)@), f@));
    } else {
        let node = NodeBuilder {
            path: f.path.clone(),
            additions: f.additions,
            deletions: f.deletions,
            commit_count: 0,
            edges: Vec::new(),
        };
        assert(node@ == touched(blank_node(f.path@), f@)) by {
            assert(edge_models(node.edges@) =~= Seq::<EdgeModel>::empty());
        }
        nodes.push(node);
        assert(node_models(nodes@) =~= record_file(node_models(old(nodes)@), f@));
    }
}

/// The paths that a commit changed: each once, in the order of paths.
fn commit_path_list(files: &[ChangedFile]) -> (u: Vec<String>)
    ensures
        texts(u@) == commit_paths(changed_file_views(files@)),
{
    let ghost items = path_items(changed_file_views(files@));
    let mut order: Vec<RankEntry> = Vec::new();
    let mut k: usize = 0;
    assert(items.take(0) =~= Seq::empty());
    while k < files.len()
        invariant
            k <= files.len(),
            items == path_items(changed_file_views(files@)),
            rank_views(order@) == ranked(items.take(k as int)),
        decreases files.len() - k,
    {
        let entry = RankEntry { key: 0, path: files[k].path.clone(), index: k };
        assert(items.take(k + 1).drop_last() =~= items.take(k as int));
        assert(items.take(k + 1).last() == entry@);
        insert_ranked(&mut order, entry);
        k += 1;
    }
    assert(items.take(k as int) =~= items);
    let mut u: Vec<String> = Vec::new();
    let mut m: usize = 0;
    while m < order.len()
        invariant
            m <= order.len(),
            u.len() == m,
            forall|i: int| 0 <= i < m ==> (#[trigger] u[i])@ == order[i].path@,
        decreases order.len() - m,
    {
        u.push(order[m].path.clone());
        m += 1;
    }
    assert(texts(u@) =~= rank_paths(rank_views(order@)));
    u
}

/// Takes a commit with the changes `files` into the nodes of an era: records
/// the lines of each change at the node of its file, counts the commit once
/// at each file that it changed, then links every two different files of
/// the commit.
fn ingest_changes(nodes: &mut Vec<NodeBuilder>, files: &[ChangedFile], Ghost(cap): Ghost<nat>)
    requires
        nodes_wf(node_models(old(nodes)@), cap),
        cap < u32::MAX,
        stats_fit(node_models(old(nodes)@), changed_file_views(files@)),
    ensures
        node_models(final(nodes)@) == ingest(
            node_models(old(nodes)@),
            changed_file_views(files@),
        ),
{
    let ghost before = node_models(nodes@);
    let ghost fs = changed_file_views(files@);
    let mut k: usize = 0;
    assert(fs.take(0) =~= Seq::empty());
    while k < files.len()
        invariant
            k <= files.len(),
            fs == changed_file_views(files@),
            sound(before),
            stats_fit(before, fs),
            node_models(nodes@) == record_files(before, fs.take(k as int)),
        decreases files.len() - k,
    {
        proof {
            let p = fs[k as int].path;
            lemma_record_files(before, fs.take(k as int));
            lemma_prefix_sums(fs, k + 1, p);
            assert(fs.take(k + 1).drop_last() =~= fs.take(k as int));
            assert(fs.take(k + 1).last() == fs[k as int]);
        }
        record_change(nodes, &files[k]);
        k += 1;
    }
    assert(fs.take(k as int) =~= fs);
    let ghost rec = node_models(nodes@);
    let u = commit_path_list(files);
    let ghost paths = texts(u@);
    proof {
        lemma_record_files(before, fs);
        lemma_commit_paths(fs);
        assert forall|m: int| 0 <= m < paths.len() implies has_node(rec, #[trigger] paths[m]) by {
            lemma_occurrences(fs, paths[m]);
        }
    }
    let mut at: Vec<usize> = Vec::new();
    let mut m: usize = 0;
    while m < u.len()
        invariant
            m <= u.len(),
            at.len() == m,
            paths == texts(u@),
            rec == node_models(nodes@),
            forall|i: int| 0 <= i < paths.len() ==> has_node(rec, #[trigger] paths[i]),
            forall|i: int| 0 <= i < m ==> #[trigger] at[i] == find_node(rec, paths[i]),
        decreases u.len() - m,
    {
        let found = find_node_index(nodes, &u[m]);
        assert(paths[m as int] == u[m as int]@);
        at.push(found);
        m += 1;
    }
    let n = u.len();
    let mut c: usize = 0;
    proof {
        assert forall|m: int| 0 <= m < paths.len() implies node_of(
            rec,
            #[trigger] paths[m],
        ).commit_count + 1 <= u32::MAX by {
            let k = choose|k: int| 0 <= k < fs.len() && (#[trigger] fs[k]).path == paths[m];
            assert(node_of(rec, paths[m]).commit_count == node_of(before, paths[m]).commit_count);
        }
    }
    while c < n
        invariant
            c <= n,
            n == u.len(),
            at.len() == n,
            paths == texts(u@),
            distinct(paths),
            sound(rec),
            forall|m: int| 0 <= m < paths.len() ==> has_node(rec, #[trigger] paths[m]),
            forall|m: int| 0 <= m < n ==> #[trigger] at[m] == find_node(rec, paths[m]),
            forall|m: int|
                0 <= m < paths.len() ==> node_of(rec, #[trigger] paths[m]).commit_count + 1
                    <= u32::MAX,
            node_models(nodes@) == count_paths(rec, paths, c as int),
        decreases n - c,
    {
        let ghost cur = node_models(nodes@);
        let found = at[c];
        proof {
            lemma_count_paths(rec, paths, c as int);
            lemma_same_links(cur, rec);
            lemma_position_of_key(paths, c as int);
            crate::keys::lemma_position(node_paths(rec), paths[c as int]);
            assert(find_node(cur, paths[c as int]) == found);
            assert(node_of(cur, paths[c as int]) == cur[found as int]);
            assert(node_of(cur, paths[c as int]).commit_count == node_of(
                rec,
                paths[c as int],
            ).commit_count);
        }
        nodes[found].commit_count = nodes[found].commit_count + 1;
        assert(node_models(nodes@) =~= count_path(cur, paths[c as int]));
        c += 1;
    }
    let ghost counted = node_models(nodes@);
    proof {
        lemma_count_paths(rec, paths, n as int);
        lemma_same_links(counted, rec);
        assert forall|x: Seq<char>, y: Seq<char>| #[trigger]
            weight_between(counted, x, y) <= cap by {
            assert(weight_between(rec, x, y) == weight_between(before, x, y));
        }
    }
    let mut i: usize = 0;
    while i < n
        invariant
            i <= n,
            n == u.len(),
            at.len() == n,
            paths == texts(u@),
            distinct(paths),
            sound(counted),
            cap < u32::MAX,
            forall|x: Seq<char>, y: Seq<char>| #[trigger] weight_between(counted, x, y) <= cap,
            forall|m: int| 0 <= m < paths.len() ==> has_node(counted, #[trigger] paths[m]),
            forall|m: int| 0 <= m < n ==> #[trigger] at[m] == find_node(counted, paths[m]),
            node_models(nodes@) == link_upto(counted, paths, i as int, 0),
        decreases n - i,
    {
        let mut j: usize = i + 1;
        assert(link_upto(counted, paths, i as int, 0) == link_upto(counted, paths, i as int, i + 1));
        while j < n
            invariant
                i < j <= n,
                n == u.len(),
                at.len() == n,
                paths == texts(u@),
                distinct(paths),
                sound(counted),
                cap < u32::MAX,
                forall|x: Seq<char>, y: Seq<char>| #[trigger] weight_between(counted, x, y) <= cap,
                forall|m: int| 0 <= m < paths.len() ==> has_node(counted, #[trigger] paths[m]),
                forall|m: int| 0 <= m < n ==> #[trigger] at[m] == find_node(counted, paths[m]),
                node_models(nodes@) == link_upto(counted, paths, i as int, j as int),
            decreases n - j,
        {
            let ghost cur = node_models(nodes@);
            let ghost a = paths[i as int];
            let ghost b = paths[j as int];
            let ia = at[i];
            let ib = at[j];
            proof {
                lemma_link_upto(counted, paths, i as int, j as int);
                lemma_position_of_key(paths, i as int);
                lemma_position_of_key(paths, j as int);
                assert(a == u[i as int]@ && b == u[j as int]@);
                assert(find_node(cur, a) == ia && find_node(cur, b) == ib);
                assert(weight_between(cur, a, b) == weight_between(counted, a, b));
                assert(weight_between(cur, b, a) == weight_between(counted, b, a));
                lemma_weight_between(cur, a, b);
                lemma_add_half_edge(cur, a, b);
            }
            bump(&mut nodes[ia].edges, &u[j]);
            let ghost half = node_models(nodes@);
            proof {
                assert(half =~= add_half_edge(cur, a, b));
                assert(weight_between(half, b, a) == weight_between(cur, b, a));
                lemma_weight_between(half, b, a);
                assert(find_node(half, b) == ib);
            }
            bump(&mut nodes[ib].edges, &u[i]);
            proof {
                assert(node_models(nodes@) =~= add_half_edge(half, b, a));
                assert(link_upto(counted, paths, i as int, j + 1) == link(cur, a, b));
            }
            j += 1;
        }
        assert(link_upto(counted, paths, i + 1, 0) == link_upto(counted, paths, i as int, n as int));
        i += 1;
    }
}

/// The sum of the weights of the half-edges of a node.
fn total_edge_weight(edges: &Vec<EdgeBuilder>) -> (sum: u128)
    ensures
        sum == weight_sum(edge_models(edges@)),
{
    let ghost models = edge_models(edges@);
    let mut sum: u128 = 0;
    let mut k: usize = 0;
    assert(models.take(0) =~= Seq::empty());
    while k < edges.len()
        invariant
            k <= edges.len(),
            models == edge_models(edges@),
            sum == weight_sum(models.take(k as int)),
            sum <= k * 0xFFFF_FFFF,
        decreases edges.len() - k,
    {
        assert(models.take(k + 1).drop_last() =~= models.take(k as int));
        assert(models.take(k + 1).last().weight == edges[k as int].weight);
        sum = sum + edges[k].weight as u128;
        k += 1;
    }
    assert(models.take(k as int) =~= models);
    sum
}

/// The node at `i` as it is handed out.
fn finalize_node(nodes: &Vec<NodeBuilder>, i: usize) -> (node: FileNode)
    requires
        i < nodes.len(),
    ensures
        node@ == finalized_node(node_models(nodes@), node_models(nodes@)[i as int]),
{
    let ghost models = node_models(nodes@);
    let source = &nodes[i];
    let mut edges: Vec<Edge> = Vec::new();
    let mut k: usize = 0;
    while k < source.edges.len()
        invariant
            k <= source.edges.len(),
            i < nodes.len(),
            *source == nodes[i as int],
            models == node_models(nodes@),
            edges.len() == k,
            forall|m: int|
                0 <= m < k ==> (#[trigger] edges[m])@ == finalized_edge(
                    models,
                    models[i as int].edges[m],
                ),
        decreases source.edges.len() - k,
    {
        let edge = &source.edges[k];
        let at = find_node_index(nodes, &edge.target);
        let target_commits = if at < nodes.len() {
            nodes[at].commit_count
        } else {
            0
        };
        edges.push(Edge { target: edge.target.clone(), weight: edge.weight, target_commits });
        k += 1;
    }
    let node = FileNode {
        path: source.path.clone(),
        additions: source.additions,
        deletions: source.deletions,
        commit_count: source.commit_count,
        edges,
    };
    assert(node@.edges =~= finalized_node(models, models[i as int]).edges);
    node
}

/// The nodes of an era as they are handed out: by number of commits, the
/// highest first, and by path among equal numbers.
fn finalize_nodes(nodes: &Vec<NodeBuilder>) -> (out: Vec<FileNode>)
    ensures
        file_node_views(out@) == finalized_nodes(node_models(nodes@)),
{
    let ghost models = node_models(nodes@);
    let ghost items = count_items(models);
    let mut order: Vec<RankEntry> = Vec::new();
    let mut i: usize = 0;
    assert(items.take(0) =~= Seq::empty());
    while i < nodes.len()
        invariant
            i <= nodes.len(),
            models == node_models(nodes@),
            items == count_items(models),
            rank_views(order@) == ranked(items.take(i as int)),
        decreases nodes.len() - i,
    {
        let entry = RankEntry {
            key: nodes[i].commit_count as u128,
            path: nodes[i].path.clone(),
            index: i,
        };
        assert(items.take(i + 1).drop_last() =~= items.take(i as int));
        assert(items.take(i + 1).last() == entry@);
        insert_ranked(&mut order, entry);
        i += 1;
    }
    assert(items.take(i as int) =~= items);
    proof {
        lemma_ranked_content(items);
    }
    let mut out: Vec<FileNode> = Vec::new();
    let mut m: usize = 0;
    while m < order.len()
        invariant
            m <= order.len(),
            out.len() == m,
            models == node_models(nodes@),
            rank_views(order@) == ranked(count_items(models)),
            forall|k: int|
                0 <= k < order.len() ==> count_items(models).contains(
                    #[trigger] ranked(count_items(models))[k],
                ),
            forall|k: int|
                0 <= k < m ==> (#[trigger] out[k])@ == finalized_node(
                    models,
                    models[order[k].index as int],
                ),
        decreases order.len() - m,
    {
        let at = order[m].index;
        proof {
            let item = ranked(count_items(models))[m as int];
            assert(item == order[m as int]@);
            assert(count_items(models).contains(item));
            let w = choose|w: int| 0 <= w < count_items(models).len() && count_items(models)[w] == item;
            assert(item.index == w);
        }
        out.push(finalize_node(nodes, at));
        m += 1;
    }
    assert(file_node_views(out@) =~= finalized_nodes(models));
    out
}

/// Builds the co-change graph of a repository from its commits, oldest first.
pub struct FileGraphBuilder {
    repo: String,
    eras: Vec<EraBuilder>,
    current_era_commits: u32,
    total_commits: u32,
}

impl View for FileGraphBuilder {
    type V = BuilderModel;

    closed spec fn view(&self) -> BuilderModel {
        BuilderModel {
            repo: self.repo@,
            eras: era_models(self.eras@),
            current_era_commits: self.current_era_commits as nat,
            total_commits: self.total_commits as nat,
        }
    }
}

impl FileGraphBuilder {
    #[verifier::type_invariant]
    spec fn in_order(self) -> bool {
        builder_wf(self@)
    }

    /// A builder for the repository `repo`, with one open era and no commit.
    pub fn new(repo: String) -> (builder: Self)
        ensures
            builder@ == initial(repo@),
            builder_wf(builder@),
    {
        let first_era = EraBuilder {
            era_index: 0,
            nodes: Vec::new(),
            commits_in_era: 0,
            reset_commit: None,
        };
        let mut eras: Vec<EraBuilder> = Vec::new();
        eras.push(first_era);
        proof {
            lemma_initial_wf(repo@);
            assert(node_models(first_era.nodes@) =~= Seq::<NodeModel>::empty());
            assert(era_models(eras@) =~= initial(repo@).eras);
        }
        FileGraphBuilder { repo, eras, current_era_commits: 0, total_commits: 0 }
    }

    /// The paths that the changes delete, in the order of the changes.
    pub fn get_deleted_files(&self, changed_files: &[ChangedFile]) -> (deleted: Vec<String>)
        ensures
            texts(deleted@) == deleted_paths(changed_file_views(changed_files@)),
    {
        let ghost fs = changed_file_views(changed_files@);
        let mut deleted: Vec<String> = Vec::new();
        let mut k: usize = 0;
        assert(fs.take(0) =~= Seq::empty());
        assert(texts(deleted@) =~= Seq::empty());
        while k < changed_files.len()
            invariant
                k <= changed_files.len(),
                fs == changed_file_views(changed_files@),
                texts(deleted@) == deleted_paths(fs.take(k as int)),
            decreases changed_files.len() - k,
        {
            assert(fs.take(k + 1).drop_last() =~= fs.take(k as int));
            assert(fs.take(k + 1).last() == changed_files[k as int]@);
            if changed_files[k].is_deleted {
                let ghost before = texts(deleted@);
                deleted.push(changed_files[k].path.clone());
                assert(texts(deleted@) =~= before.push(changed_files[k as int].path@));
            }
            k += 1;
        }
        assert(fs.take(k as int) =~= fs);
        deleted
    }

    /// The most linked files of the open era: the paths with the highest
    /// total edge weight, by path among equal weights, at most ten of them.
    pub fn get_top_10_files(&self) -> (top: Vec<String>)
        ensures
            texts(top@) == top_files(self@.eras.last().nodes),
    {
        proof {
            use_type_invariant(self);
        }
        let era = &self.eras[self.eras.len() - 1];
        let ghost nodes = node_models(era.nodes@);
        let ghost items = weight_items(nodes);
        assert(nodes == self@.eras.last().nodes);
        let mut order: Vec<RankEntry> = Vec::new();
        let mut i: usize = 0;
        assert(items.take(0) =~= Seq::empty());
        while i < era.nodes.len()
            invariant
                i <= era.nodes.len(),
                nodes == node_models(era.nodes@),
                items == weight_items(nodes),
                rank_views(order@) == ranked(items.take(i as int)),
            decreases era.nodes.len() - i,
        {
            let weight = total_edge_weight(&era.nodes[i].edges);
            let entry = RankEntry { key: weight, path: era.nodes[i].path.clone(), index: i };
            assert(items.take(i + 1).drop_last() =~= items.take(i as int));
            assert(items.take(i + 1).last() == entry@);
            insert_ranked(&mut order, entry);
            i += 1;
        }
        assert(items.take(i as int) =~= items);
        let ghost all = rank_paths(rank_views(order@));
        let mut top: Vec<String> = Vec::new();
        let mut m: usize = 0;
        while m < order.len() && m < TOP_FILES
            invariant
                m <= order.len(),
                m <= TOP_FILES,
                top.len() == m,
                forall|k: int| 0 <= k < m ==> (#[trigger] top[k])@ == order[k].path@,
            decreases order.len() - m,
        {
            top.push(order[m].path.clone());
            m += 1;
        }
        assert(texts(top@) =~= first_n(all, TOP_FILES as int));
        top
    }

    /// Tells whether a commit with the changes `changed_files` calls for a
    /// new era: the cap on eras is not passed, the open era has ten files,
    /// and the commit deletes four or more of its ten most linked ones.
    pub fn should_start_new_era(&self, changed_files: &[ChangedFile]) -> (start: bool)
        ensures
            start == should_start_new_era(self@.eras, changed_file_views(changed_files@)),
    {
        if self.eras.len() > ERA_CAP {
            return false;
        }
        let top_10 = self.get_top_10_files();
        if top_10.len() < TOP_FILES {
            return false;
        }
        let deleted_files = self.get_deleted_files(changed_files);
        let ghost top = texts(top_10@);
        let ghost deleted = texts(deleted_files@);
        let mut deleted_count: usize = 0;
        let mut i: usize = 0;
        assert(top.take(0) =~= Seq::empty());
        while i < top_10.len()
            invariant
                i <= top_10.len(),
                top == texts(top_10@),
                deleted == texts(deleted_files@),
                deleted_count == deleted_among(top.take(i as int), deleted),
                deleted_count <= i,
            decreases top_10.len() - i,
        {
            assert(top.take(i + 1).drop_last() =~= top.take(i as int));
            assert(top.take(i + 1).last() == top_10[i as int]@);
            if find_key(&deleted_files, &top_10[i]) < deleted_files.len() {
                deleted_count += 1;
            }
            i += 1;
        }
        assert(top.take(i as int) =~= top);
        deleted_count >= DELETION_THRESHOLD
    }

    /// Closes the open era and starts a new one, which names `commit_hash`
    /// as the commit it was started by.
    fn start_new_era(&mut self, commit_hash: Option<&str>)
        requires
            old(self)@.eras.len() <= ERA_CAP,
            old(self)@.current_era_commits > MIN_ERA_COMMITS,
        ensures
            final(self)@ == with_new_era(
                old(self)@,
                match commit_hash {
                    Some(hash) => Some(hash@),
                    None => None,
                },
            ),
    {
        proof {
            use_type_invariant(&*self);
        }
        let mut work = FileGraphBuilder::new(String::new());
        core::mem::swap(self, &mut work);
        let FileGraphBuilder { repo, mut eras, current_era_commits, total_commits } = work;
        let ghost before = era_models(eras@);
        let ghost hash = match commit_hash {
            Some(hash) => Some(hash@),
            None => None::<Seq<char>>,
        };
        let new_index = eras[eras.len() - 1].era_index + 1;
        let new_era = EraBuilder {
            era_index: new_index,
            nodes: Vec::new(),
            commits_in_era: 0,
            reset_commit: match commit_hash {
                Some(hash) => Some(hash.to_owned()),
                None => None,
            },
        };
        eras.push(new_era);
        proof {
            lemma_with_new_era_wf(old(self)@, hash);
            assert(node_models(new_era.nodes@) =~= Seq::<NodeModel>::empty());
            assert(era_models(eras@) =~= with_new_era(old(self)@, hash).eras);
        }
        *self = FileGraphBuilder { repo, eras, current_era_commits: 0, total_commits };
    }

    /// Takes a commit with the changes `changed_files` into an era whose
    /// number of commits already counts it.
    fn add_commit_to_era(era: &mut EraBuilder, changed_files: &[ChangedFile])
        requires
            old(era).commits_in_era >= 1,
            nodes_wf(old(era)@.nodes, (old(era).commits_in_era - 1) as nat),
            stats_fit(old(era)@.nodes, changed_file_views(changed_files@)),
        ensures
            final(era)@ == (EraModel {
                nodes: ingest(old(era)@.nodes, changed_file_views(changed_files@)),
                ..old(era)@
            }),
    {
        ingest_changes(&mut era.nodes, changed_files, Ghost((era.commits_in_era - 1) as nat));
    }

    /// Takes in the next commit of the history, with its changes under
    /// their canonical paths: into the open era; where the commit closes
    /// that era, a new one is started, which names `commit_hash`.
    pub fn add_commit(&mut self, changed_files: &[ChangedFile], commit_hash: Option<&str>)
        requires
            has_room(old(self)@, changed_file_views(changed_files@)),
        ensures
            final(self)@ == with_commit(
                old(self)@,
                changed_file_views(changed_files@),
                match commit_hash {
                    Some(hash) => Some(hash@),
                    None => None,
                },
            ),
            builder_wf(old(self)@),
            builder_wf(final(self)@),
    {
        proof {
            use_type_invariant(&*self);
        }
        let ghost fs = changed_file_views(changed_files@);
        let mut work = FileGraphBuilder::new(String::new());
        core::mem::swap(self, &mut work);
        let FileGraphBuilder { repo, mut eras, current_era_commits, total_commits } = work;
        let ghost before = era_models(eras@);
        proof {
            lemma_commits_of_eras_update(before, before.last());
            lemma_taken_in_wf(old(self)@, fs);
        }
        let last = eras.len() - 1;
        eras[last].commits_in_era = eras[last].commits_in_era + 1;
        Self::add_commit_to_era(&mut eras[last], changed_files);
        assert(era_models(eras@) =~= taken_in(old(self)@, fs).eras);
        let mut next = FileGraphBuilder {
            repo,
            eras,
            current_era_commits: current_era_commits + 1,
            total_commits: total_commits + 1,
        };
        assert(next@ == taken_in(old(self)@, fs));
        let should_reset = next.current_era_commits > MIN_ERA_COMMITS && next.should_start_new_era(
            changed_files,
        );
        if should_reset {
            next.start_new_era(commit_hash);
        }
        proof {
            use_type_invariant(&next);
        }
        *self = next;
    }

    /// Tells whether the counters have room for a commit with the changes
    /// `changed_files`, which is what `add_commit` asks for.
    pub fn can_add_commit(&self, changed_files: &[ChangedFile]) -> (ok: bool)
        ensures
            ok == has_room(self@, changed_file_views(changed_files@)),
    {
        proof {
            use_type_invariant(self);
        }
        let ghost fs = changed_file_views(changed_files@);
        if self.total_commits == u32::MAX {
            return false;
        }
        let era = &self.eras[self.eras.len() - 1];
        let ghost nodes = node_models(era.nodes@);
        assert(nodes == self@.eras.last().nodes);
        let mut k: usize = 0;
        while k < changed_files.len()
            invariant
                k <= changed_files.len(),
                fs == changed_file_views(changed_files@),
                nodes == node_models(era.nodes@),
                nodes == self@.eras.last().nodes,
                forall|m: int|
                    0 <= m < k ==> {
                        let p = (#[trigger] fs[m]).path;
                        &&& node_of(nodes, p).additions + added_lines(fs, p) <= u32::MAX
                        &&& node_of(nodes, p).deletions + removed_lines(fs, p) <= u32::MAX
                        &&& node_of(nodes, p).commit_count + 1 <= u32::MAX
                    },
            decreases changed_files.len() - k,
        {
            let path = &changed_files[k].path;
            let ghost p = fs[k as int].path;
            let at = find_node_index(&era.nodes, path);
            let mut additions: u128 = 0;
            let mut deletions: u128 = 0;
            let mut count: u32 = 0;
            if at < era.nodes.len() {
                additions = era.nodes[at].additions as u128;
                deletions = era.nodes[at].deletions as u128;
                count = era.nodes[at].commit_count;
            }
            assert(count == node_of(nodes, p).commit_count);
            let mut j: usize = 0;
            assert(fs.take(0) =~= Seq::empty());
            while j < changed_files.len()
                invariant
                    j <= changed_files.len(),
                    k < changed_files.len(),
                    fs == changed_file_views(changed_files@),
                    p == fs[k as int].path,
                    *path == changed_files[k as int].path,
                    additions == node_of(nodes, p).additions + added_lines(fs.take(j as int), p),
                    deletions == node_of(nodes, p).deletions + removed_lines(fs.take(j as int), p),
                    additions <= (j + 1) * 0xFFFF_FFFF,
                    deletions <= (j + 1) * 0xFFFF_FFFF,
                decreases changed_files.len() - j,
            {
                assert(fs.take(j + 1).drop_last() =~= fs.take(j as int));
                assert(fs.take(j + 1).last() == changed_files[j as int]@);
                if changed_files[j].path == *path {
                    additions = additions + changed_files[j].additions as u128;
                    deletions = deletions + changed_files[j].deletions as u128;
                }
                j += 1;
            }
            assert(fs.take(j as int) =~= fs);
            if additions > u32::MAX as u128 || deletions > u32::MAX as u128 || count
                == u32::MAX {
                assert(!stats_fit(nodes, fs)) by {
                    assert(fs[k as int].path == p);
                }
                return false;
            }
            k += 1;
        }
        true
    }

    /// Hands out the graph of all eras: the nodes of each era by number of
    /// commits, the highest first, and by path among equal numbers; each
    /// half-edge with the number of commits that its target has in the
    /// whole era.
    pub fn finalize(self) -> (graph: FileGraph)
        ensures
            graph@ == finalized(self@),
            builder_wf(self@),
            graph_in_order(graph@),
    {
        proof {
            use_type_invariant(&self);
            lemma_finalized_in_order(self@);
        }
        let ghost models = era_models(self.eras@);
        let mut eras: Vec<Era> = Vec::new();
        let mut e: usize = 0;
        while e < self.eras.len()
            invariant
                e <= self.eras.len(),
                models == era_models(self.eras@),
                eras.len() == e,
                forall|i: int| 0 <= i < e ==> (#[trigger] eras[i])@ == finalized_era(models[i]),
            decreases self.eras.len() - e,
        {
            let era = &self.eras[e];
            let nodes = finalize_nodes(&era.nodes);
            let reset_commit = match &era.reset_commit {
                Some(hash) => Some(hash.clone()),
                None => None,
            };
            eras.push(
                Era {
                    era_index: era.era_index,
                    commits_in_era: era.commits_in_era,
                    reset_commit,
                    nodes,
                },
            );
            e += 1;
        }
        let graph = FileGraph {
            repo: self.repo.clone(),
            total_commits_analyzed: self.total_commits,
            eras,
        };
        assert(graph@.eras =~= finalized(self@).eras);
        graph
    }
}

} // verus!
