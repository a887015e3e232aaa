//! The native scanner: the decisions of a walk of a target's tree and the
//! accounting of what it finds.
//!
//! Items of the walk are named by their path components below the scan root.
//! The walk itself (reading metadata and directories) is driven from outside:
//! it hands each outcome to a [`ScanState`], which decides what happens next.

use vstd::prelude::*;
use vstd::string::*;
use crate::config::{ReportMode, Target};
use crate::path::{join_slash, path_join, paths_equal, same_path};
use crate::scanner::{EntryObservation, EntryType, EntryView, NodeObservation, NodeView, ScanResult, Scanner, ScannerError};
use crate::scanner::exclude::{
    add_pattern, build_set, builder_patterns, glob_error_text, glob_parses, glob_set_builds, glob_set_matches, new_builder,
    set_is_empty, set_is_match, set_patterns,
};
use globset::GlobSet;
use crate::text::{
    lemma_text_lt_asymmetric, lemma_text_lt_total, lemma_text_lt_transitive, same_text, text_less,
    text_lt,
};
use crate::time::Duration;

verus! {

/// Path components as text values.
pub open spec fn name_views(v: Seq<String>) -> Seq<Seq<char>> {
    v.map_values(|s: String| s@)
}

/// Path order below a common root: component by component, each compared as
/// text; a path comes before the paths below it.
pub open spec fn names_lt(a: Seq<Seq<char>>, b: Seq<Seq<char>>) -> bool
    decreases a.len(),
{
    if a.len() == 0 {
        b.len() > 0
    } else if b.len() == 0 {
        false
    } else if a[0] != b[0] {
        text_lt(a[0], b[0])
    } else {
        names_lt(a.drop_first(), b.drop_first())
    }
}

proof fn lemma_names_lt_skip(a: Seq<Seq<char>>, b: Seq<Seq<char>>, i: int)
    requires
        0 <= i <= a.len(),
        i <= b.len(),
        a.take(i) == b.take(i),
    ensures
        names_lt(a, b) == names_lt(a.skip(i), b.skip(i)),
    decreases i,
{
    if i > 0 {
        assert(a[0] == a.take(i)[0]);
        assert(b[0] == b.take(i)[0]);
        assert(a.drop_first().take(i - 1) =~= a.take(i).drop_first());
        assert(b.drop_first().take(i - 1) =~= b.take(i).drop_first());
        lemma_names_lt_skip(a.drop_first(), b.drop_first(), i - 1);
        assert(a.drop_first().skip(i - 1) =~= a.skip(i));
        assert(b.drop_first().skip(i - 1) =~= b.skip(i));
    } else {
        assert(a.skip(0) =~= a);
        assert(b.skip(0) =~= b);
    }
}

proof fn lemma_names_lt_irreflexive(a: Seq<Seq<char>>)
    ensures
        !names_lt(a, a),
    decreases a.len(),
{
    if a.len() > 0 {
        lemma_names_lt_irreflexive(a.drop_first());
    }
}

proof fn lemma_names_lt_transitive(a: Seq<Seq<char>>, b: Seq<Seq<char>>, c: Seq<Seq<char>>)
    requires
        names_lt(a, b),
        names_lt(b, c),
    ensures
        names_lt(a, c),
    decreases a.len(),
{
    if a.len() > 0 && b.len() > 0 && c.len() > 0 {
        if a[0] != b[0] {
            if b[0] != c[0] {
                lemma_text_lt_transitive(a[0], b[0], c[0]);
                if a[0] == c[0] {
                    lemma_text_lt_asymmetric(a[0], b[0]);
                }
            }
        } else if b[0] != c[0] {
        } else {
            lemma_names_lt_transitive(a.drop_first(), b.drop_first(), c.drop_first());
        }
    }
}

proof fn lemma_names_lt_total(a: Seq<Seq<char>>, b: Seq<Seq<char>>)
    ensures
        a == b || names_lt(a, b) || names_lt(b, a),
    decreases a.len(),
{
    if a.len() > 0 && b.len() > 0 {
        if a[0] == b[0] {
            lemma_names_lt_total(a.drop_first(), b.drop_first());
            if a.drop_first() == b.drop_first() {
                assert(a =~= seq![a[0]] + a.drop_first());
                assert(b =~= seq![b[0]] + b.drop_first());
            }
        } else {
            lemma_text_lt_total(a[0], b[0]);
        }
    } else if a.len() == 0 && b.len() == 0 {
        assert(a =~= b);
    }
}

/// Whether path `a` sorts before path `b`.
pub fn names_less(a: &Vec<String>, b: &Vec<String>) -> (r: bool)
    ensures
        r == names_lt(name_views(a@), name_views(b@)),
{
    let ghost x = name_views(a@);
    let ghost y = name_views(b@);
    let mut i: usize = 0;
    while i < a.len() && i < b.len()
        invariant
            x == name_views(a@),
            y == name_views(b@),
            i <= a@.len(),
            i <= b@.len(),
            x.take(i as int) == y.take(i as int),
        decreases a@.len() - i,
    {
        if !same_text(a[i].as_str(), b[i].as_str()) {
            proof {
                lemma_names_lt_skip(x, y, i as int);
                assert(x.skip(i as int)[0] == a@[i as int]@);
                assert(y.skip(i as int)[0] == b@[i as int]@);
            }
            return text_less(a[i].as_str(), b[i].as_str());
        }
        assert(x.take(i + 1) =~= x.take(i as int).push(x[i as int]));
        assert(y.take(i + 1) =~= y.take(i as int).push(y[i as int]));
        i = i + 1;
    }
    proof {
        lemma_names_lt_skip(x, y, i as int);
    }
    i < b.len()
}

/// Whether two paths have the same components.
pub fn names_equal(a: &Vec<String>, b: &Vec<String>) -> (r: bool)
    ensures
        r == (name_views(a@) == name_views(b@)),
{
    if a.len() != b.len() {
        return false;
    }
    let mut i: usize = 0;
    while i < a.len()
        invariant
            a@.len() == b@.len(),
            i <= a@.len(),
            forall|k: int| 0 <= k < i ==> a@[k]@ == b@[k]@,
        decreases a@.len() - i,
    {
        if !same_text(a[i].as_str(), b[i].as_str()) {
            assert(name_views(a@)[i as int] != name_views(b@)[i as int]);
            return false;
        }
        i = i + 1;
    }
    assert(name_views(a@) =~= name_views(b@));
    true
}

/// A copy of a path's components.
pub fn copy_names(v: &Vec<String>) -> (r: Vec<String>)
    ensures
        r@ == v@,
{
    crate::config::copy_strings(v)
}

/// What an entry is, as its metadata shows it.
#[derive(Debug, Clone, Copy, PartialEq, Eq, Structural)]
pub enum FileKind {
    File,
    Directory,
    Symlink,
    /// A socket, FIFO or device.
    Special,
    /// Anything else.
    Unknown,
}

/// What the accounting reads from an entry's metadata.
#[derive(Debug, Clone, Copy, PartialEq, Eq, Structural)]
pub struct EntryMeta {
    pub kind: FileKind,
    /// Allocated 512-byte blocks.
    pub blocks: u64,
    /// The apparent length in bytes.
    pub size: u64,
    /// The device the entry lies on.
    pub device: u64,
}

/// How an entry counts in the node that holds it and in the nodes above.
#[derive(Debug, Clone, Copy, PartialEq, Eq, Structural)]
pub enum EntryKind {
    File,
    Directory,
    Symlink,
    Other,
}

pub open spec fn entry_type_of(kind: EntryKind) -> EntryType {
    match kind {
        EntryKind::File => EntryType::File,
        EntryKind::Directory => EntryType::Directory,
        EntryKind::Symlink => EntryType::Symlink,
        EntryKind::Other => EntryType::Other,
    }
}

pub fn entry_type_for(entry_kind: EntryKind) -> (t: EntryType)
    ensures
        t == entry_type_of(entry_kind),
{
    match entry_kind {
        EntryKind::File => EntryType::File,
        EntryKind::Directory => EntryType::Directory,
        EntryKind::Symlink => EntryType::Symlink,
        EntryKind::Other => EntryType::Other,
    }
}

/// `a + b`, or the largest `u64` when the sum does not fit.
pub open spec fn sat_add(a: u64, b: u64) -> u64 {
    if a + b > u64::MAX { u64::MAX } else { (a + b) as u64 }
}

/// Allocated bytes of `blocks` 512-byte blocks, saturating.
pub open spec fn block_bytes(blocks: u64) -> u64 {
    if blocks * 512 > u64::MAX { u64::MAX } else { (blocks * 512) as u64 }
}

pub fn saturating_add(a: u64, b: u64) -> (r: u64)
    ensures
        r == sat_add(a, b),
{
    a.saturating_add(b)
}

/// The display path of the item with components `key`: the display path
/// itself for the root, otherwise the components joined to it.
pub open spec fn display_for(display: Seq<char>, key: Seq<Seq<char>>) -> Seq<char> {
    if key.len() == 0 {
        display
    } else {
        path_join(display, join_slash(key))
    }
}

/// Components joined with `/`.
pub fn join_names(key: &Vec<String>) -> (r: String)
    ensures
        r@ == join_slash(name_views(key@)),
{
    let mut out = String::new();
    let mut i: usize = 0;
    while i < key.len()
        invariant
            i <= key@.len(),
            out@ == join_slash(name_views(key@).take(i as int)),
        decreases key@.len() - i,
    {
        let ghost before = out@;
        if i > 0 {
            crate::text::push_char(&mut out, '/');
        }
        crate::text::push_str(&mut out, key[i].as_str());
        proof {
            let t = name_views(key@).take(i + 1);
            assert(t.drop_last() =~= name_views(key@).take(i as int));
            assert(t.last() == key@[i as int]@);
            if i == 0 {
                assert(t =~= seq![key@[0]@]);
            } else {
                assert(out@ =~= before + seq!['/'] + key@[i as int]@);
            }
        }
        i = i + 1;
    }
    assert(name_views(key@).take(i as int) =~= name_views(key@));
    out
}

pub fn display_path_for(display: &str, key: &Vec<String>) -> (r: String)
    ensures
        r@ == display_for(display@, name_views(key@)),
{
    if key.len() == 0 {
        String::from_str(display)
    } else {
        let rel = join_names(key);
        crate::path::join_path(display, rel.as_str())
    }
}

/// The state of one node while the walk runs.
pub struct NodeState {
    pub key: Seq<Seq<char>>,
    pub obs: crate::scanner::NodeView,
    pub is_directory: bool,
}

/// A node of the walk: its components, what is known of it so far, and
/// whether it was seen as a directory.
pub struct NodeAccumulator {
    key: Vec<String>,
    obs: NodeObservation,
    is_directory: bool,
}

impl View for NodeAccumulator {
    type V = NodeState;

    closed spec fn view(&self) -> NodeState {
        NodeState { key: name_views(self.key@), obs: self.obs@, is_directory: self.is_directory }
    }
}

/// A node before anything is known of it: its display path, its parent's
/// (none for the root), its name (`.` for the root), its depth, all zero.
pub open spec fn fresh_node(display: Seq<char>, key: Seq<Seq<char>>) -> NodeState {
    NodeState {
        key,
        obs: crate::scanner::NodeView {
            path: display_for(display, key),
            parent: if key.len() == 0 { seq![] } else { display_for(display, key.drop_last()) },
            node: if key.len() == 0 { "."@ } else { key.last() },
            depth: key.len() as usize,
            own_blocks: 0,
            children_blocks: 0,
            own_apparent: 0,
            children_apparent: 0,
            file_count: 0,
            directory_count: 0,
            symlink_count: 0,
            children_file_count: 0,
            children_directory_count: 0,
            children_symlink_count: 0,
        },
        is_directory: false,
    }
}

impl NodeAccumulator {
    pub fn new(display: &str, key: &Vec<String>) -> (n: NodeAccumulator)
        requires
            key@.len() <= usize::MAX,
        ensures
            n@ == fresh_node(display@, name_views(key@)),
    {
        let path = display_path_for(display, key);
        let parent = if key.len() == 0 {
            String::new()
        } else {
            let mut up = copy_names(key);
            up.pop();
            assert(name_views(up@) =~= name_views(key@).drop_last());
            display_path_for(display, &up)
        };
        let node = if key.len() == 0 {
            String::from_str(".")
        } else {
            key[key.len() - 1].clone()
        };
        NodeAccumulator {
            key: copy_names(key),
            obs: NodeObservation {
                path,
                parent,
                node,
                depth: key.len(),
                own_blocks: 0,
                children_blocks: 0,
                own_apparent: 0,
                children_apparent: 0,
                file_count: 0,
                directory_count: 0,
                symlink_count: 0,
                children_file_count: 0,
                children_directory_count: 0,
                children_symlink_count: 0,
            },
            is_directory: false,
        }
    }

    /// The observation this node reports.
    pub fn into_observation(self) -> (o: NodeObservation)
        ensures
            o@ == self@.obs,
    {
        self.obs
    }
}

/// How an entry of the given kind counts in the nodes above its parent.
pub open spec fn entry_kind_of(kind: FileKind) -> EntryKind {
    match kind {
        FileKind::File => EntryKind::File,
        FileKind::Directory => EntryKind::Directory,
        FileKind::Symlink => EntryKind::Symlink,
        FileKind::Special => EntryKind::Other,
        FileKind::Unknown => EntryKind::Other,
    }
}

/// The parent of a directory: one more own directory, and its bytes under
/// the parent's child directories.
pub open spec fn with_dir_child(x: NodeState, blocks: u64, apparent: u64) -> NodeState {
    NodeState {
        obs: crate::scanner::NodeView {
            directory_count: (x.obs.directory_count + 1) as u64,
            children_blocks: sat_add(x.obs.children_blocks, blocks),
            children_apparent: sat_add(x.obs.children_apparent, apparent),
            ..x.obs
        },
        ..x
    }
}

/// A node above the parent of an entry: the entry's bytes and one more
/// entry under its child directories.
pub open spec fn with_child_entry(x: NodeState, kind: EntryKind, blocks: u64, apparent: u64) -> NodeState {
    let o = x.obs;
    NodeState {
        obs: crate::scanner::NodeView {
            children_blocks: sat_add(o.children_blocks, blocks),
            children_apparent: sat_add(o.children_apparent, apparent),
            children_file_count: if kind == EntryKind::File || kind == EntryKind::Other {
                (o.children_file_count + 1) as u64
            } else {
                o.children_file_count
            },
            children_directory_count: if kind == EntryKind::Directory {
                (o.children_directory_count + 1) as u64
            } else {
                o.children_directory_count
            },
            children_symlink_count: if kind == EntryKind::Symlink {
                (o.children_symlink_count + 1) as u64
            } else {
                o.children_symlink_count
            },
            ..o
        },
        ..x
    }
}

/// A directory itself: it is a directory and owns its own bytes.
pub open spec fn with_own_dir(x: NodeState, blocks: u64, apparent: u64) -> NodeState {
    NodeState {
        obs: crate::scanner::NodeView {
            own_blocks: sat_add(x.obs.own_blocks, blocks),
            own_apparent: sat_add(x.obs.own_apparent, apparent),
            ..x.obs
        },
        is_directory: true,
        ..x
    }
}

/// The directory holding a non-directory entry: it owns the entry's bytes,
/// and counts the entry as a file (files, sockets, FIFOs, devices) or a
/// symlink.
pub open spec fn with_direct_entry(x: NodeState, kind: FileKind, blocks: u64, apparent: u64) -> NodeState {
    let o = x.obs;
    NodeState {
        obs: crate::scanner::NodeView {
            own_blocks: sat_add(o.own_blocks, blocks),
            own_apparent: sat_add(o.own_apparent, apparent),
            file_count: if kind == FileKind::File || kind == FileKind::Special {
                (o.file_count + 1) as u64
            } else {
                o.file_count
            },
            symlink_count: if kind == FileKind::Symlink { (o.symlink_count + 1) as u64 } else { o.symlink_count },
            ..o
        },
        ..x
    }
}

/// No two nodes have the same components.
pub open spec fn keys_unique(nodes: Seq<NodeState>) -> bool {
    forall|i: int, j: int| 0 <= i < nodes.len() && 0 <= j < nodes.len() && i != j ==> #[trigger] nodes[i].key != #[trigger] nodes[j].key
}

/// The node with components `key` changed by `f`; a fresh node is added
/// first when there is none.
pub open spec fn touch(nodes: Seq<NodeState>, display: Seq<char>, key: Seq<Seq<char>>, f: spec_fn(NodeState) -> NodeState) -> Seq<NodeState> {
    if exists|i: int| 0 <= i < nodes.len() && #[trigger] nodes[i].key == key {
        let i = choose|i: int| 0 <= i < nodes.len() && #[trigger] nodes[i].key == key;
        nodes.update(i, f(nodes[i]))
    } else {
        nodes.push(f(fresh_node(display, key)))
    }
}

/// `touch` applied to the prefixes of `p` of lengths `k - 1` down to `0`:
/// the nodes above `p`, nearest first.
pub open spec fn touch_ancestors(nodes: Seq<NodeState>, display: Seq<char>, p: Seq<Seq<char>>, k: int, f: spec_fn(NodeState) -> NodeState) -> Seq<NodeState>
    decreases k,
{
    if k <= 0 {
        nodes
    } else {
        touch_ancestors(touch(nodes, display, p.take(k - 1), f), display, p, k - 1, f)
    }
}

/// The nodes once the entry with components `key` and metadata `meta` is
/// accounted: a directory counts in its parent and the nodes above and owns
/// its bytes; any other entry counts in its parent (which owns its bytes) and
/// in the nodes above. An entry without a parent in the walk counts nowhere.
pub open spec fn accounted(nodes: Seq<NodeState>, display: Seq<char>, key: Seq<Seq<char>>, meta: EntryMeta) -> Seq<NodeState> {
    let blocks = block_bytes(meta.blocks);
    let apparent = meta.size;
    if meta.kind == FileKind::Directory {
        let n1 = if key.len() > 0 {
            let p = key.drop_last();
            touch_ancestors(
                touch(nodes, display, p, |x: NodeState| with_dir_child(x, blocks, apparent)),
                display,
                p,
                p.len() as int,
                |x: NodeState| with_child_entry(x, EntryKind::Directory, blocks, apparent),
            )
        } else {
            nodes
        };
        touch(n1, display, key, |x: NodeState| with_own_dir(x, blocks, apparent))
    } else if key.len() == 0 {
        nodes
    } else {
        let p = key.drop_last();
        touch_ancestors(
            touch(nodes, display, p, |x: NodeState| with_direct_entry(x, meta.kind, blocks, apparent)),
            display,
            p,
            p.len() as int,
            |x: NodeState| with_child_entry(x, entry_kind_of(meta.kind), blocks, apparent),
        )
    }
}

/// Whether some node has components `q`.
pub open spec fn has_key(nodes: Seq<NodeState>, q: Seq<Seq<char>>) -> bool {
    exists|i: int| 0 <= i < nodes.len() && #[trigger] nodes[i].key == q
}

/// The node with components `q`, or a fresh one when there is none.
pub open spec fn node_or_fresh(nodes: Seq<NodeState>, display: Seq<char>, q: Seq<Seq<char>>) -> NodeState {
    if has_key(nodes, q) {
        nodes[choose|i: int| 0 <= i < nodes.len() && #[trigger] nodes[i].key == q]
    } else {
        fresh_node(display, q)
    }
}

/// A node's total size, in allocated and in apparent bytes: what it owns
/// plus what lies under its child directories.
pub open spec fn total_size(n: NodeState) -> (int, int) {
    (n.obs.own_blocks + n.obs.children_blocks, n.obs.own_apparent + n.obs.children_apparent)
}

/// Whether the node `q` lies on the path of the entry `key`: a directory
/// above it, or the entry itself when it is a directory.
pub open spec fn on_path(key: Seq<Seq<char>>, kind: FileKind, q: Seq<Seq<char>>) -> bool {
    (q.len() < key.len() && q == key.take(q.len() as int)) || (q == key && kind == FileKind::Directory)
}

proof fn lemma_node_index(nodes: Seq<NodeState>, display: Seq<char>, q: Seq<Seq<char>>, j: int)
    requires
        keys_unique(nodes),
        0 <= j < nodes.len(),
        nodes[j].key == q,
    ensures
        has_key(nodes, q),
        node_or_fresh(nodes, display, q) == nodes[j],
{
    assert(nodes[j].key == q);
    let c = choose|i: int| 0 <= i < nodes.len() && #[trigger] nodes[i].key == q;
    if c != j {
        assert(nodes[c].key != nodes[j].key);
    }
}

#[verifier::spinoff_prover]
proof fn lemma_touch_node_or_fresh(nodes: Seq<NodeState>, display: Seq<char>, k: Seq<Seq<char>>, f: spec_fn(NodeState) -> NodeState)
    requires
        keys_unique(nodes),
        forall|x: NodeState| #[trigger] f(x).key == x.key,
    ensures
        keys_unique(touch(nodes, display, k, f)),
        forall|q: Seq<Seq<char>>| #[trigger] node_or_fresh(touch(nodes, display, k, f), display, q) == if q == k {
            f(node_or_fresh(nodes, display, k))
        } else {
            node_or_fresh(nodes, display, q)
        },
{
    let t = touch(nodes, display, k, f);
    if has_key(nodes, k) {
        let c = choose|i: int| 0 <= i < nodes.len() && #[trigger] nodes[i].key == k;
        assert(t == nodes.update(c, f(nodes[c])));
        assert(f(nodes[c]).key == nodes[c].key);
        assert forall|i: int, j: int| 0 <= i < t.len() && 0 <= j < t.len() && i != j implies #[trigger] t[i].key != #[trigger] t[j].key by {
            assert(t[i].key == nodes[i].key);
            assert(t[j].key == nodes[j].key);
        }
        assert forall|q: Seq<Seq<char>>| #[trigger] node_or_fresh(t, display, q) == if q == k {
            f(node_or_fresh(nodes, display, k))
        } else {
            node_or_fresh(nodes, display, q)
        } by {
            if q == k {
                lemma_node_index(nodes, display, k, c);
                lemma_node_index(t, display, k, c);
            } else if has_key(nodes, q) {
                let j = choose|i: int| 0 <= i < nodes.len() && #[trigger] nodes[i].key == q;
                lemma_node_index(nodes, display, q, j);
                assert(t[j] == nodes[j]);
                lemma_node_index(t, display, q, j);
            } else {
                if has_key(t, q) {
                    let j = choose|i: int| 0 <= i < t.len() && #[trigger] t[i].key == q;
                    assert(nodes[j].key == q);
                }
            }
        }
    } else {
        let x = f(fresh_node(display, k));
        assert(t == nodes.push(x));
        assert(x.key == k);
        assert forall|i: int, j: int| 0 <= i < t.len() && 0 <= j < t.len() && i != j implies #[trigger] t[i].key != #[trigger] t[j].key by {
            if i < nodes.len() && j < nodes.len() {
                assert(t[i] == nodes[i] && t[j] == nodes[j]);
            } else if i < nodes.len() {
                assert(t[i] == nodes[i]);
            } else {
                assert(t[j] == nodes[j]);
            }
        }
        assert forall|q: Seq<Seq<char>>| #[trigger] node_or_fresh(t, display, q) == if q == k {
            f(node_or_fresh(nodes, display, k))
        } else {
            node_or_fresh(nodes, display, q)
        } by {
            if q == k {
                lemma_node_index(t, display, k, nodes.len() as int);
            } else if has_key(nodes, q) {
                let j = choose|i: int| 0 <= i < nodes.len() && #[trigger] nodes[i].key == q;
                lemma_node_index(nodes, display, q, j);
                assert(t[j] == nodes[j]);
                lemma_node_index(t, display, q, j);
            } else {
                if has_key(t, q) {
                    let j = choose|i: int| 0 <= i < t.len() && #[trigger] t[i].key == q;
                    if j < nodes.len() {
                        assert(nodes[j].key == q);
                    }
                }
            }
        }
    }
}

proof fn lemma_touch_ancestors_node_or_fresh(nodes: Seq<NodeState>, display: Seq<char>, p: Seq<Seq<char>>, k: int, f: spec_fn(NodeState) -> NodeState)
    requires
        keys_unique(nodes),
        0 <= k <= p.len(),
        forall|x: NodeState| #[trigger] f(x).key == x.key,
    ensures
        keys_unique(touch_ancestors(nodes, display, p, k, f)),
        forall|q: Seq<Seq<char>>| #[trigger] node_or_fresh(touch_ancestors(nodes, display, p, k, f), display, q) == if q.len() < k && q == p.take(q.len() as int) {
            f(node_or_fresh(nodes, display, q))
        } else {
            node_or_fresh(nodes, display, q)
        },
    decreases k,
{
    if k > 0 {
        let key = p.take(k - 1);
        let n1 = touch(nodes, display, key, f);
        lemma_touch_node_or_fresh(nodes, display, key, f);
        lemma_touch_ancestors_node_or_fresh(n1, display, p, k - 1, f);
        assert forall|q: Seq<Seq<char>>| #[trigger] node_or_fresh(touch_ancestors(nodes, display, p, k, f), display, q) == if q.len() < k && q == p.take(q.len() as int) {
            f(node_or_fresh(nodes, display, q))
        } else {
            node_or_fresh(nodes, display, q)
        } by {
            assert(node_or_fresh(n1, display, q) == if q == key { f(node_or_fresh(nodes, display, key)) } else { node_or_fresh(nodes, display, q) });
            if q == key {
                assert(q.len() == k - 1);
            }
        }
    }
}

proof fn lemma_adds_size(x: NodeState, y: NodeState, b: u64, a: u64)
    requires
        x.obs.own_blocks + x.obs.children_blocks + b <= u64::MAX,
        x.obs.own_apparent + x.obs.children_apparent + a <= u64::MAX,
        (y.obs.own_blocks == sat_add(x.obs.own_blocks, b) && y.obs.children_blocks == x.obs.children_blocks
            && y.obs.own_apparent == sat_add(x.obs.own_apparent, a) && y.obs.children_apparent == x.obs.children_apparent)
        || (y.obs.children_blocks == sat_add(x.obs.children_blocks, b) && y.obs.own_blocks == x.obs.own_blocks
            && y.obs.children_apparent == sat_add(x.obs.children_apparent, a) && y.obs.own_apparent == x.obs.own_apparent),
    ensures
        total_size(y) == (total_size(x).0 + b, total_size(x).1 + a),
{
}

/// Accounting an entry adds its bytes, once, to the total size (own plus
/// children) of each node on its path: every directory above it, and the
/// entry itself when it is a directory. Every other node keeps its total.
/// Sizes saturate at the largest `u64`, so this is stated where no total
/// reaches it.
#[verifier::spinoff_prover]
pub proof fn law_account_adds_once(nodes: Seq<NodeState>, display: Seq<char>, key: Seq<Seq<char>>, meta: EntryMeta, q: Seq<Seq<char>>)
    requires
        keys_unique(nodes),
        forall|i: int| 0 <= i < nodes.len() ==> #[trigger] nodes[i].obs.own_blocks + nodes[i].obs.children_blocks + block_bytes(meta.blocks) <= u64::MAX,
        forall|i: int| 0 <= i < nodes.len() ==> #[trigger] nodes[i].obs.own_apparent + nodes[i].obs.children_apparent + meta.size <= u64::MAX,
    ensures
        keys_unique(accounted(nodes, display, key, meta)),
        on_path(key, meta.kind, q) ==> total_size(node_or_fresh(accounted(nodes, display, key, meta), display, q)) == (
            total_size(node_or_fresh(nodes, display, q)).0 + block_bytes(meta.blocks),
            total_size(node_or_fresh(nodes, display, q)).1 + meta.size,
        ),
        !on_path(key, meta.kind, q) ==> node_or_fresh(accounted(nodes, display, key, meta), display, q) == node_or_fresh(nodes, display, q),
{
    let b = block_bytes(meta.blocks);
    let a = meta.size;
    let before = node_or_fresh(nodes, display, q);
    assert(before.obs.own_blocks + before.obs.children_blocks + b <= u64::MAX
        && before.obs.own_apparent + before.obs.children_apparent + a <= u64::MAX) by {
        if has_key(nodes, q) {
            let j = choose|i: int| 0 <= i < nodes.len() && #[trigger] nodes[i].key == q;
            assert(nodes[j].obs.own_blocks + nodes[j].obs.children_blocks + b <= u64::MAX);
            assert(nodes[j].obs.own_apparent + nodes[j].obs.children_apparent + a <= u64::MAX);
        }
    }
    let dir_child = |x: NodeState| with_dir_child(x, b, a);
    let own_dir = |x: NodeState| with_own_dir(x, b, a);
    let direct = |x: NodeState| with_direct_entry(x, meta.kind, b, a);
    let child = |x: NodeState| with_child_entry(x, entry_kind_of(meta.kind), b, a);
    let child_dir = |x: NodeState| with_child_entry(x, EntryKind::Directory, b, a);
    assert(forall|x: NodeState| #[trigger] dir_child(x).key == x.key);
    assert(forall|x: NodeState| #[trigger] own_dir(x).key == x.key);
    assert(forall|x: NodeState| #[trigger] direct(x).key == x.key);
    assert(forall|x: NodeState| #[trigger] child(x).key == x.key);
    assert(forall|x: NodeState| #[trigger] child_dir(x).key == x.key);
    if meta.kind == FileKind::Directory {
        let n1 = if key.len() > 0 {
            let p = key.drop_last();
            let t0 = touch(nodes, display, p, dir_child);
            lemma_touch_node_or_fresh(nodes, display, p, dir_child);
            lemma_touch_ancestors_node_or_fresh(t0, display, p, p.len() as int, child_dir);
            let t1 = touch_ancestors(t0, display, p, p.len() as int, child_dir);
            assert(node_or_fresh(t0, display, q) == if q == p { dir_child(before) } else { before });
            assert(node_or_fresh(t1, display, q) == if q.len() < p.len() && q == p.take(q.len() as int) {
                child_dir(node_or_fresh(t0, display, q))
            } else {
                node_or_fresh(t0, display, q)
            });
            if q.len() < key.len() && q == key.take(q.len() as int) {
                if q.len() < p.len() {
                    assert(q == p.take(q.len() as int));
                    lemma_adds_size(before, child_dir(before), b, a);
                } else {
                    assert(q =~= p);
                    lemma_adds_size(before, dir_child(before), b, a);
                }
                assert(q != key);
            } else {
                if q.len() < p.len() && q == p.take(q.len() as int) {
                    assert(q == key.take(q.len() as int));
                }
                if q == p {
                    assert(q == key.take(q.len() as int));
                }
            }
            t1
        } else {
            nodes
        };
        assert(n1 == if key.len() > 0 {
            touch_ancestors(
                touch(nodes, display, key.drop_last(), |x: NodeState| with_dir_child(x, b, a)),
                display,
                key.drop_last(),
                key.drop_last().len() as int,
                |x: NodeState| with_child_entry(x, EntryKind::Directory, b, a),
            )
        } else {
            nodes
        });
        lemma_touch_node_or_fresh(n1, display, key, own_dir);
        if q == key {
            assert(!(q.len() < key.len()));
            assert(node_or_fresh(n1, display, q) == before);
            lemma_adds_size(before, own_dir(before), b, a);
        }
    } else if key.len() > 0 {
        let p = key.drop_last();
        let t0 = touch(nodes, display, p, direct);
        lemma_touch_node_or_fresh(nodes, display, p, direct);
        lemma_touch_ancestors_node_or_fresh(t0, display, p, p.len() as int, child);
        assert(node_or_fresh(t0, display, q) == if q == p { direct(before) } else { before });
        if q.len() < key.len() && q == key.take(q.len() as int) {
            if q.len() < p.len() {
                assert(q == p.take(q.len() as int));
                lemma_adds_size(before, child(before), b, a);
            } else {
                assert(q =~= p);
                lemma_adds_size(before, direct(before), b, a);
            }
        } else {
            if q.len() < p.len() && q == p.take(q.len() as int) {
                assert(q == key.take(q.len() as int));
            }
            if q == p {
                assert(q == key.take(q.len() as int));
            }
        }
    }
}

/// A node's entry totals (files, directories, symlinks): what it holds
/// directly plus what lies under its child directories.
pub open spec fn total_entries(n: NodeState) -> (int, int, int) {
    (
        n.obs.file_count + n.obs.children_file_count,
        n.obs.directory_count + n.obs.children_directory_count,
        n.obs.symlink_count + n.obs.children_symlink_count,
    )
}

/// How an entry of the given kind counts: sockets, FIFOs, devices and
/// entries of unknown kind as files.
pub open spec fn counted_as(kind: FileKind) -> (int, int, int) {
    match kind {
        FileKind::Directory => (0, 1, 0),
        FileKind::Symlink => (0, 0, 1),
        _ => (1, 0, 0),
    }
}

/// No entry count of the node is at the largest `u64`.
pub open spec fn counts_below_max(n: NodeState) -> bool {
    counts_within(n, u64::MAX - 1)
}

/// Accounting an entry counts it once, by its kind, in the entry totals (own
/// plus children) of every directory above it; the totals of every other node
/// stay as they were. An entry whose kind is unknown is left out: its parent
/// does not count it while the directories above do.
#[verifier::spinoff_prover]
pub proof fn law_account_counts_once(nodes: Seq<NodeState>, display: Seq<char>, key: Seq<Seq<char>>, meta: EntryMeta, q: Seq<Seq<char>>)
    requires
        keys_unique(nodes),
        meta.kind != FileKind::Unknown,
        forall|i: int| 0 <= i < nodes.len() ==> counts_below_max(#[trigger] nodes[i]),
    ensures
        (q.len() < key.len() && q == key.take(q.len() as int)) ==> {
            let before = total_entries(node_or_fresh(nodes, display, q));
            let after = total_entries(node_or_fresh(accounted(nodes, display, key, meta), display, q));
            after == (before.0 + counted_as(meta.kind).0, before.1 + counted_as(meta.kind).1, before.2 + counted_as(meta.kind).2)
        },
        !(q.len() < key.len() && q == key.take(q.len() as int)) ==> total_entries(node_or_fresh(accounted(nodes, display, key, meta), display, q))
            == total_entries(node_or_fresh(nodes, display, q)),
{
    let b = block_bytes(meta.blocks);
    let a = meta.size;
    let before = node_or_fresh(nodes, display, q);
    assert(counts_below_max(before)) by {
        if has_key(nodes, q) {
            let j = choose|i: int| 0 <= i < nodes.len() && #[trigger] nodes[i].key == q;
            assert(counts_below_max(nodes[j]));
        }
    }
    let dir_child = |x: NodeState| with_dir_child(x, b, a);
    let own_dir = |x: NodeState| with_own_dir(x, b, a);
    let direct = |x: NodeState| with_direct_entry(x, meta.kind, b, a);
    let child = |x: NodeState| with_child_entry(x, entry_kind_of(meta.kind), b, a);
    let child_dir = |x: NodeState| with_child_entry(x, EntryKind::Directory, b, a);
    assert(forall|x: NodeState| #[trigger] dir_child(x).key == x.key);
    assert(forall|x: NodeState| #[trigger] own_dir(x).key == x.key);
    assert(forall|x: NodeState| #[trigger] direct(x).key == x.key);
    assert(forall|x: NodeState| #[trigger] child(x).key == x.key);
    assert(forall|x: NodeState| #[trigger] child_dir(x).key == x.key);
    let above = q.len() < key.len() && q == key.take(q.len() as int);
    if meta.kind == FileKind::Directory {
        let n1 = if key.len() > 0 {
            let p = key.drop_last();
            let t0 = touch(nodes, display, p, dir_child);
            lemma_touch_node_or_fresh(nodes, display, p, dir_child);
            lemma_touch_ancestors_node_or_fresh(t0, display, p, p.len() as int, child_dir);
            let t1 = touch_ancestors(t0, display, p, p.len() as int, child_dir);
            assert(node_or_fresh(t0, display, q) == if q == p { dir_child(before) } else { before });
            assert(node_or_fresh(t1, display, q) == if q.len() < p.len() && q == p.take(q.len() as int) {
                child_dir(node_or_fresh(t0, display, q))
            } else {
                node_or_fresh(t0, display, q)
            });
            if above {
                if q.len() < p.len() {
                    assert(q == p.take(q.len() as int));
                } else {
                    assert(q =~= p);
                }
            } else {
                if q.len() < p.len() && q == p.take(q.len() as int) {
                    assert(q == key.take(q.len() as int));
                }
                if q == p {
                    assert(q == key.take(q.len() as int));
                }
            }
            t1
        } else {
            nodes
        };
        assert(n1 == if key.len() > 0 {
            touch_ancestors(
                touch(nodes, display, key.drop_last(), |x: NodeState| with_dir_child(x, b, a)),
                display,
                key.drop_last(),
                key.drop_last().len() as int,
                |x: NodeState| with_child_entry(x, EntryKind::Directory, b, a),
            )
        } else {
            nodes
        });
        lemma_touch_node_or_fresh(n1, display, key, own_dir);
        if q == key {
            assert(!(q.len() < key.len()));
            assert(node_or_fresh(n1, display, q) == before);
        }
    } else if key.len() > 0 {
        let p = key.drop_last();
        let t0 = touch(nodes, display, p, direct);
        lemma_touch_node_or_fresh(nodes, display, p, direct);
        lemma_touch_ancestors_node_or_fresh(t0, display, p, p.len() as int, child);
        assert(node_or_fresh(t0, display, q) == if q == p { direct(before) } else { before });
        if above {
            if q.len() < p.len() {
                assert(q == p.take(q.len() as int));
            } else {
                assert(q =~= p);
            }
        } else {
            if q.len() < p.len() && q == p.take(q.len() as int) {
                assert(q == key.take(q.len() as int));
            }
            if q == p {
                assert(q == key.take(q.len() as int));
            }
        }
    }
}

/// What accounting an entry does to the node with components `q`: the
/// nodes above the entry's parent take it as a child entry, the parent takes
/// it as a child directory or a direct entry, a directory entry takes its own
/// bytes, and every other node stays as it was.
proof fn lemma_accounted_node(nodes: Seq<NodeState>, display: Seq<char>, key: Seq<Seq<char>>, meta: EntryMeta, q: Seq<Seq<char>>)
    requires
        keys_unique(nodes),
    ensures
        node_or_fresh(accounted(nodes, display, key, meta), display, q) == if q.len() + 1 < key.len() && q == key.take(q.len() as int) {
            with_child_entry(node_or_fresh(nodes, display, q), entry_kind_of(meta.kind), block_bytes(meta.blocks), meta.size)
        } else if key.len() > 0 && q == key.take(key.len() - 1) {
            if meta.kind == FileKind::Directory {
                with_dir_child(node_or_fresh(nodes, display, q), block_bytes(meta.blocks), meta.size)
            } else {
                with_direct_entry(node_or_fresh(nodes, display, q), meta.kind, block_bytes(meta.blocks), meta.size)
            }
        } else if q == key && meta.kind == FileKind::Directory {
            with_own_dir(node_or_fresh(nodes, display, q), block_bytes(meta.blocks), meta.size)
        } else {
            node_or_fresh(nodes, display, q)
        },
{
    let b = block_bytes(meta.blocks);
    let a = meta.size;
    let before = node_or_fresh(nodes, display, q);
    let dir_child = |x: NodeState| with_dir_child(x, b, a);
    let own_dir = |x: NodeState| with_own_dir(x, b, a);
    let direct = |x: NodeState| with_direct_entry(x, meta.kind, b, a);
    let child = |x: NodeState| with_child_entry(x, entry_kind_of(meta.kind), b, a);
    let child_dir = |x: NodeState| with_child_entry(x, EntryKind::Directory, b, a);
    assert(forall|x: NodeState| #[trigger] dir_child(x).key == x.key);
    assert(forall|x: NodeState| #[trigger] own_dir(x).key == x.key);
    assert(forall|x: NodeState| #[trigger] direct(x).key == x.key);
    assert(forall|x: NodeState| #[trigger] child(x).key == x.key);
    assert(forall|x: NodeState| #[trigger] child_dir(x).key == x.key);
    let above = q.len() + 1 < key.len() && q == key.take(q.len() as int);
    if key.len() > 0 {
        let p = key.drop_last();
        assert(key.take(key.len() - 1) =~= p);
        if above {
            assert(q == p.take(q.len() as int));
        }
        if q.len() < p.len() && q == p.take(q.len() as int) {
            assert(q == key.take(q.len() as int));
        }
        if q == key {
            assert(q != p);
        }
    }
    if meta.kind == FileKind::Directory {
        let n1 = if key.len() > 0 {
            let p = key.drop_last();
            let t0 = touch(nodes, display, p, dir_child);
            lemma_touch_node_or_fresh(nodes, display, p, dir_child);
            lemma_touch_ancestors_node_or_fresh(t0, display, p, p.len() as int, child_dir);
            let t1 = touch_ancestors(t0, display, p, p.len() as int, child_dir);
            assert(node_or_fresh(t0, display, q) == if q == p { dir_child(before) } else { before });
            assert(node_or_fresh(t1, display, q) == if q.len() < p.len() && q == p.take(q.len() as int) {
                child_dir(node_or_fresh(t0, display, q))
            } else {
                node_or_fresh(t0, display, q)
            });
            if q == key {
                assert(node_or_fresh(t1, display, q) == before);
            }
            t1
        } else {
            nodes
        };
        assert(n1 == if key.len() > 0 {
            touch_ancestors(
                touch(nodes, display, key.drop_last(), |x: NodeState| with_dir_child(x, b, a)),
                display,
                key.drop_last(),
                key.drop_last().len() as int,
                |x: NodeState| with_child_entry(x, EntryKind::Directory, b, a),
            )
        } else {
            nodes
        });
        lemma_touch_node_or_fresh(n1, display, key, own_dir);
        if q == key {
            assert(node_or_fresh(n1, display, q) == before);
        }
    } else if key.len() > 0 {
        let p = key.drop_last();
        let t0 = touch(nodes, display, p, direct);
        lemma_touch_node_or_fresh(nodes, display, p, direct);
        lemma_touch_ancestors_node_or_fresh(t0, display, p, p.len() as int, child);
        assert(node_or_fresh(t0, display, q) == if q == p { direct(before) } else { before });
    }
}

/// Accounting an entry, field by field. Every node above the entry's parent
/// keeps its own entry counts and own bytes; its child-entry count of the
/// entry's kind (files, with sockets, FIFOs, devices and unknown entries;
/// directories; symlinks) grows by one and its child bytes by the entry's
/// bytes. The parent counts the entry among its own entries of that kind (an
/// entry of unknown kind among none) and keeps its child-entry counts; it
/// takes a directory's bytes as child bytes and another entry's as its own. A
/// directory entry itself takes its bytes as its own and keeps its counts.
/// Every other node stays as it was. Counts are stated where none is at the
/// largest `u64`.
#[verifier::spinoff_prover]
pub proof fn law_account_fields(nodes: Seq<NodeState>, display: Seq<char>, key: Seq<Seq<char>>, meta: EntryMeta, q: Seq<Seq<char>>)
    requires
        keys_unique(nodes),
        forall|i: int| 0 <= i < nodes.len() ==> counts_below_max(#[trigger] nodes[i]),
    ensures
        (q.len() + 1 < key.len() && q == key.take(q.len() as int)) ==> ({
            let x = node_or_fresh(nodes, display, q).obs;
            let y = node_or_fresh(accounted(nodes, display, key, meta), display, q).obs;
            &&& y.file_count == x.file_count
            &&& y.directory_count == x.directory_count
            &&& y.symlink_count == x.symlink_count
            &&& y.own_blocks == x.own_blocks
            &&& y.own_apparent == x.own_apparent
            &&& y.children_file_count == x.children_file_count + (if meta.kind == FileKind::File || meta.kind
                == FileKind::Special || meta.kind == FileKind::Unknown { 1int } else { 0int })
            &&& y.children_directory_count == x.children_directory_count + (if meta.kind == FileKind::Directory { 1int } else { 0int })
            &&& y.children_symlink_count == x.children_symlink_count + (if meta.kind == FileKind::Symlink { 1int } else { 0int })
            &&& y.children_blocks == sat_add(x.children_blocks, block_bytes(meta.blocks))
            &&& y.children_apparent == sat_add(x.children_apparent, meta.size)
        }),
        (key.len() > 0 && q == key.take(key.len() - 1)) ==> ({
            let x = node_or_fresh(nodes, display, q).obs;
            let y = node_or_fresh(accounted(nodes, display, key, meta), display, q).obs;
            &&& y.file_count == x.file_count + (if meta.kind == FileKind::File || meta.kind == FileKind::Special { 1int } else { 0int })
            &&& y.directory_count == x.directory_count + (if meta.kind == FileKind::Directory { 1int } else { 0int })
            &&& y.symlink_count == x.symlink_count + (if meta.kind == FileKind::Symlink { 1int } else { 0int })
            &&& y.children_file_count == x.children_file_count
            &&& y.children_directory_count == x.children_directory_count
            &&& y.children_symlink_count == x.children_symlink_count
            &&& meta.kind == FileKind::Directory ==> {
                &&& y.children_blocks == sat_add(x.children_blocks, block_bytes(meta.blocks))
                &&& y.children_apparent == sat_add(x.children_apparent, meta.size)
                &&& y.own_blocks == x.own_blocks
                &&& y.own_apparent == x.own_apparent
            }
            &&& meta.kind != FileKind::Directory ==> {
                &&& y.own_blocks == sat_add(x.own_blocks, block_bytes(meta.blocks))
                &&& y.own_apparent == sat_add(x.own_apparent, meta.size)
                &&& y.children_blocks == x.children_blocks
                &&& y.children_apparent == x.children_apparent
            }
        }),
        (q == key && meta.kind == FileKind::Directory) ==> ({
            let x = node_or_fresh(nodes, display, q);
            let y = node_or_fresh(accounted(nodes, display, key, meta), display, q);
            &&& y.is_directory
            &&& y.obs.own_blocks == sat_add(x.obs.own_blocks, block_bytes(meta.blocks))
            &&& y.obs.own_apparent == sat_add(x.obs.own_apparent, meta.size)
            &&& y.obs.children_blocks == x.obs.children_blocks
            &&& y.obs.children_apparent == x.obs.children_apparent
            &&& y.obs.file_count == x.obs.file_count
            &&& y.obs.directory_count == x.obs.directory_count
            &&& y.obs.symlink_count == x.obs.symlink_count
            &&& y.obs.children_file_count == x.obs.children_file_count
            &&& y.obs.children_directory_count == x.obs.children_directory_count
            &&& y.obs.children_symlink_count == x.obs.children_symlink_count
        }),
        !(q.len() < key.len() && q == key.take(q.len() as int)) && !(q == key && meta.kind == FileKind::Directory)
            ==> node_or_fresh(accounted(nodes, display, key, meta), display, q) == node_or_fresh(nodes, display, q),
{
    lemma_accounted_node(nodes, display, key, meta, q);
    let before = node_or_fresh(nodes, display, q);
    assert(counts_below_max(before)) by {
        if has_key(nodes, q) {
            let j = choose|i: int| 0 <= i < nodes.len() && #[trigger] nodes[i].key == q;
            assert(counts_below_max(nodes[j]));
        }
    }
    if key.len() > 0 && q == key.take(key.len() - 1) {
        assert(q.len() == key.len() - 1);
    }
    if !(q.len() < key.len() && q == key.take(q.len() as int)) && key.len() > 0 && q == key.take(key.len() - 1) {
        assert(q.len() < key.len());
    }
}

/// All entry counts of a node are at most `v`.
pub open spec fn counts_within(x: NodeState, v: int) -> bool {
    &&& x.obs.file_count <= v
    &&& x.obs.directory_count <= v
    &&& x.obs.symlink_count <= v
    &&& x.obs.children_file_count <= v
    &&& x.obs.children_directory_count <= v
    &&& x.obs.children_symlink_count <= v
}

/// The position of the node with components `key`, adding a fresh one when
/// there is none.
#[verifier::spinoff_prover]
fn node_mut(nodes: &mut Vec<NodeAccumulator>, display: &str, key: &Vec<String>) -> (i: usize)
    requires
        keys_unique(old(nodes)@.map_values(|n: NodeAccumulator| n@)),
        key@.len() <= usize::MAX,
    ensures
        i < final(nodes)@.len(),
        (exists|k: int| 0 <= k < old(nodes)@.len() && #[trigger] old(nodes)@[k]@.key == name_views(key@)) ==> {
            &&& final(nodes)@ == old(nodes)@
            &&& i == choose|k: int| 0 <= k < old(nodes)@.len() && #[trigger] old(nodes)@[k]@.key == name_views(key@)
        },
        !(exists|k: int| 0 <= k < old(nodes)@.len() && #[trigger] old(nodes)@[k]@.key == name_views(key@)) ==> {
            &&& i == old(nodes)@.len()
            &&& final(nodes)@.len() == old(nodes)@.len() + 1
            &&& final(nodes)@.take(i as int) == old(nodes)@
            &&& final(nodes)@[i as int]@ == fresh_node(display@, name_views(key@))
        },
{
    let ghost v = nodes@.map_values(|n: NodeAccumulator| n@);
    let mut i: usize = 0;
    while i < nodes.len()
        invariant
            i <= nodes@.len(),
            nodes@ == old(nodes)@,
            v == nodes@.map_values(|n: NodeAccumulator| n@),
            keys_unique(v),
            forall|k: int| 0 <= k < i ==> (#[trigger] nodes@[k])@.key != name_views(key@),
        decreases nodes@.len() - i,
    {
        if names_equal(&nodes[i].key, key) {
            proof {
                let c = choose|k: int| 0 <= k < old(nodes)@.len() && #[trigger] old(nodes)@[k]@.key == name_views(key@);
                assert(old(nodes)@[i as int]@.key == name_views(key@));
                assert(v[c] == old(nodes)@[c]@);
                assert(v[i as int] == old(nodes)@[i as int]@);
                if c != i {
                    assert(v[c].key == v[i as int].key);
                }
            }
            return i;
        }
        i = i + 1;
    }
    nodes.push(NodeAccumulator::new(display, key));
    assert(nodes@.take(i as int) =~= old(nodes)@);
    i
}

/// The nodes as values.
pub open spec fn node_views(nodes: Seq<NodeAccumulator>) -> Seq<NodeState> {
    nodes.map_values(|n: NodeAccumulator| n@)
}

/// A change to one node.
#[derive(Debug, Clone, Copy)]
pub enum NodeUpdate {
    DirChild { blocks: u64, apparent: u64 },
    ChildEntry { kind: EntryKind, blocks: u64, apparent: u64 },
    OwnDir { blocks: u64, apparent: u64 },
    DirectEntry { kind: FileKind, blocks: u64, apparent: u64 },
}

pub open spec fn update_fn(u: NodeUpdate) -> spec_fn(NodeState) -> NodeState {
    match u {
        NodeUpdate::DirChild { blocks, apparent } => |x: NodeState| with_dir_child(x, blocks, apparent),
        NodeUpdate::ChildEntry { kind, blocks, apparent } => |x: NodeState| with_child_entry(x, kind, blocks, apparent),
        NodeUpdate::OwnDir { blocks, apparent } => |x: NodeState| with_own_dir(x, blocks, apparent),
        NodeUpdate::DirectEntry { kind, blocks, apparent } => |x: NodeState| with_direct_entry(x, kind, blocks, apparent),
    }
}

impl NodeAccumulator {
    fn apply(&mut self, u: NodeUpdate)
        requires
            counts_within(old(self)@, u64::MAX - 1),
        ensures
            final(self)@ == (update_fn(u))(old(self)@),
    {
        match u {
            NodeUpdate::DirChild { blocks, apparent } => {
                self.obs.directory_count = self.obs.directory_count + 1;
                self.obs.children_blocks = saturating_add(self.obs.children_blocks, blocks);
                self.obs.children_apparent = saturating_add(self.obs.children_apparent, apparent);
            },
            NodeUpdate::ChildEntry { kind, blocks, apparent } => {
                self.obs.children_blocks = saturating_add(self.obs.children_blocks, blocks);
                self.obs.children_apparent = saturating_add(self.obs.children_apparent, apparent);
                match kind {
                    EntryKind::File | EntryKind::Other => {
                        self.obs.children_file_count = self.obs.children_file_count + 1;
                    },
                    EntryKind::Directory => {
                        self.obs.children_directory_count = self.obs.children_directory_count + 1;
                    },
                    EntryKind::Symlink => {
                        self.obs.children_symlink_count = self.obs.children_symlink_count + 1;
                    },
                }
            },
            NodeUpdate::OwnDir { blocks, apparent } => {
                self.is_directory = true;
                self.obs.own_blocks = saturating_add(self.obs.own_blocks, blocks);
                self.obs.own_apparent = saturating_add(self.obs.own_apparent, apparent);
            },
            NodeUpdate::DirectEntry { kind, blocks, apparent } => {
                self.obs.own_blocks = saturating_add(self.obs.own_blocks, blocks);
                self.obs.own_apparent = saturating_add(self.obs.own_apparent, apparent);
                match kind {
                    FileKind::File | FileKind::Special => {
                        self.obs.file_count = self.obs.file_count + 1;
                    },
                    FileKind::Symlink => {
                        self.obs.symlink_count = self.obs.symlink_count + 1;
                    },
                    _ => {},
                }
            },
        }
    }
}

/// Whether every node's counts stay within `v`, and within `v + 1` for the
/// nodes that `done` marks.
pub open spec fn counts_bounded(nodes: Seq<NodeState>, v: int, done: spec_fn(Seq<Seq<char>>) -> bool) -> bool {
    forall|i: int| 0 <= i < nodes.len() ==> if done((#[trigger] nodes[i]).key) {
        counts_within(nodes[i], v + 1)
    } else {
        counts_within(nodes[i], v)
    }
}

proof fn lemma_update_counts(u: NodeUpdate, x: NodeState, v: int)
    requires
        counts_within(x, v),
    ensures
        counts_within((update_fn(u))(x), v + 1),
        (u is OwnDir) ==> counts_within((update_fn(u))(x), v),
{
}

#[verifier::spinoff_prover]
proof fn lemma_touch(nodes: Seq<NodeState>, display: Seq<char>, key: Seq<Seq<char>>, u: NodeUpdate, v: int, done: spec_fn(Seq<Seq<char>>) -> bool)
    requires
        keys_unique(nodes),
        v >= 0,
        counts_bounded(nodes, v, done),
        !done(key),
    ensures
        keys_unique(touch(nodes, display, key, update_fn(u))),
        counts_bounded(touch(nodes, display, key, update_fn(u)), v, |k: Seq<Seq<char>>| done(k) || k == key),
        (u is OwnDir) ==> counts_bounded(touch(nodes, display, key, update_fn(u)), v, done),
{
    let t = touch(nodes, display, key, update_fn(u));
    let d2 = |k: Seq<Seq<char>>| done(k) || k == key;
    if exists|i: int| 0 <= i < nodes.len() && #[trigger] nodes[i].key == key {
        let c = choose|i: int| 0 <= i < nodes.len() && #[trigger] nodes[i].key == key;
        assert(counts_within(nodes[c], v));
        lemma_update_counts(u, nodes[c], v);
        assert(t[c].key == key);
        assert forall|i: int, j: int| 0 <= i < t.len() && 0 <= j < t.len() && i != j implies #[trigger] t[i].key != #[trigger] t[j].key by {
            assert(t[i].key == nodes[i].key);
            assert(t[j].key == nodes[j].key);
        }
        assert forall|i: int| 0 <= i < t.len() implies (if d2((#[trigger] t[i]).key) { counts_within(t[i], v + 1) } else { counts_within(t[i], v) }) by {
            if i != c {
                assert(t[i] == nodes[i]);
            }
        }
    } else {
        let f = fresh_node(display, key);
        assert(counts_within(f, 0));
        lemma_update_counts(u, f, 0);
        assert forall|i: int, j: int| 0 <= i < t.len() && 0 <= j < t.len() && i != j implies #[trigger] t[i].key != #[trigger] t[j].key by {
            if i < nodes.len() && j < nodes.len() {
                assert(t[i] == nodes[i] && t[j] == nodes[j]);
            } else if i < nodes.len() {
                assert(t[i] == nodes[i]);
            } else {
                assert(t[j] == nodes[j]);
            }
        }
        assert forall|i: int| 0 <= i < t.len() implies (if d2((#[trigger] t[i]).key) { counts_within(t[i], v + 1) } else { counts_within(t[i], v) }) by {
            if i < nodes.len() {
                assert(t[i] == nodes[i]);
            }
        }
    }
    if u is OwnDir {
        assert forall|i: int| 0 <= i < t.len() implies (if done((#[trigger] t[i]).key) { counts_within(t[i], v + 1) } else { counts_within(t[i], v) }) by {
            if exists|i: int| 0 <= i < nodes.len() && #[trigger] nodes[i].key == key {
                let c = choose|i: int| 0 <= i < nodes.len() && #[trigger] nodes[i].key == key;
                if i != c {
                    assert(t[i] == nodes[i]);
                } else {
                    lemma_update_counts(u, nodes[c], v);
                }
            } else {
                if i < nodes.len() {
                    assert(t[i] == nodes[i]);
                } else {
                    lemma_update_counts(u, fresh_node(display, key), 0);
                }
            }
        }
    }
}

/// Applies `u` to the node with components `key`, adding a fresh one first
/// when there is none.
#[verifier::spinoff_prover]
fn touch_node(nodes: &mut Vec<NodeAccumulator>, display: &str, key: &Vec<String>, u: NodeUpdate)
    requires
        keys_unique(node_views(old(nodes)@)),
        key@.len() <= usize::MAX,
        forall|k: int| 0 <= k < old(nodes)@.len() && (#[trigger] old(nodes)@[k])@.key == name_views(key@)
            ==> counts_within(old(nodes)@[k]@, u64::MAX - 1),
    ensures
        node_views(final(nodes)@) == touch(node_views(old(nodes)@), display@, name_views(key@), update_fn(u)),
{
    let ghost before = node_views(nodes@);
    let i = node_mut(nodes, display, key);
    let ghost mid = nodes@;
    let mut n = nodes.remove(i);
    proof {
        if !(exists|k: int| 0 <= k < old(nodes)@.len() && #[trigger] old(nodes)@[k]@.key == name_views(key@)) {
            assert(n@ == fresh_node(display@, name_views(key@)));
            assert(counts_within(n@, 0));
        } else {
            assert(old(nodes)@[i as int]@.key == name_views(key@));
        }
    }
    n.apply(u);
    nodes.insert(i, n);
    proof {
        assert(nodes@ =~= mid.update(i as int, n));
        if exists|k: int| 0 <= k < before.len() && #[trigger] before[k].key == name_views(key@) {
            assert(exists|k: int| 0 <= k < old(nodes)@.len() && #[trigger] old(nodes)@[k]@.key == name_views(key@)) by {
                let k = choose|k: int| 0 <= k < before.len() && #[trigger] before[k].key == name_views(key@);
                assert(old(nodes)@[k]@.key == name_views(key@));
            }
            assert(node_views(nodes@) =~= before.update(i as int, (update_fn(u))(before[i as int])));
        } else {
            assert(!(exists|k: int| 0 <= k < old(nodes)@.len() && #[trigger] old(nodes)@[k]@.key == name_views(key@))) by {
                if exists|k: int| 0 <= k < old(nodes)@.len() && #[trigger] old(nodes)@[k]@.key == name_views(key@) {
                    let k = choose|k: int| 0 <= k < old(nodes)@.len() && #[trigger] old(nodes)@[k]@.key == name_views(key@);
                    assert(before[k].key == name_views(key@));
                }
            }
            assert(node_views(nodes@) =~= before.push((update_fn(u))(fresh_node(display@, name_views(key@)))));
        }
    }
}

proof fn lemma_bounded_equiv(nodes: Seq<NodeState>, v: int, d1: spec_fn(Seq<Seq<char>>) -> bool, d2: spec_fn(Seq<Seq<char>>) -> bool)
    requires
        counts_bounded(nodes, v, d1),
        forall|k: Seq<Seq<char>>| #[trigger] d1(k) == d2(k),
    ensures
        counts_bounded(nodes, v, d2),
{
    assert forall|i: int| 0 <= i < nodes.len() implies (if d2((#[trigger] nodes[i]).key) { counts_within(nodes[i], v + 1) } else { counts_within(nodes[i], v) }) by {
        assert(d1(nodes[i].key) == d2(nodes[i].key));
    }
}

/// The keys already touched while accounting an entry whose parent is `p`:
/// `p` and its prefixes of length at least `k`.
pub open spec fn touched_from(p: Seq<Seq<char>>, k: int) -> spec_fn(Seq<Seq<char>>) -> bool {
    |key: Seq<Seq<char>>| key == p || (k <= key.len() < p.len() && key == p.take(key.len() as int))
}

/// The first `n` components.
fn take_names(p: &Vec<String>, n: usize) -> (r: Vec<String>)
    requires
        n <= p@.len(),
    ensures
        name_views(r@) == name_views(p@).take(n as int),
        r@.len() == n,
{
    let mut r: Vec<String> = Vec::new();
    let mut i: usize = 0;
    while i < n
        invariant
            i <= n <= p@.len(),
            r@ == p@.take(i as int),
        decreases n - i,
    {
        r.push(p[i].clone());
        assert(r@ =~= p@.take(i + 1));
        i = i + 1;
    }
    assert(name_views(r@) =~= name_views(p@).take(n as int));
    r
}

/// Applies `u` to each node above `p`, nearest first.
#[verifier::spinoff_prover]
fn touch_ancestors_exec(nodes: &mut Vec<NodeAccumulator>, display: &str, p: &Vec<String>, u: NodeUpdate, v: Ghost<int>)
    requires
        keys_unique(node_views(old(nodes)@)),
        0 <= v@ < u64::MAX,
        counts_bounded(node_views(old(nodes)@), v@, touched_from(name_views(p@), name_views(p@).len() as int)),
    ensures
        node_views(final(nodes)@) == touch_ancestors(node_views(old(nodes)@), display@, name_views(p@), p@.len() as int, update_fn(u)),
        keys_unique(node_views(final(nodes)@)),
        counts_bounded(node_views(final(nodes)@), v@, touched_from(name_views(p@), 0)),
{
    let ghost pv = name_views(p@);
    let ghost target = touch_ancestors(node_views(nodes@), display@, pv, p@.len() as int, update_fn(u));
    let mut k: usize = p.len();
    while k > 0
        invariant
            k <= p@.len(),
            pv == name_views(p@),
            0 <= v@ < u64::MAX,
            keys_unique(node_views(nodes@)),
            counts_bounded(node_views(nodes@), v@, touched_from(pv, k as int)),
            touch_ancestors(node_views(nodes@), display@, pv, k as int, update_fn(u)) == target,
        decreases k,
    {
        let prefix = take_names(p, k - 1);
        let ghost before = node_views(nodes@);
        let ghost key = name_views(prefix@);
        proof {
            assert(!touched_from(pv, k as int)(key));
            assert forall|j: int| 0 <= j < nodes@.len() && (#[trigger] nodes@[j])@.key == key implies counts_within(nodes@[j]@, u64::MAX - 1) by {
                assert(before[j] == nodes@[j]@);
            }
            lemma_touch(before, display@, key, u, v@, touched_from(pv, k as int));
            lemma_bounded_equiv(
                touch(before, display@, key, update_fn(u)),
                v@,
                |q: Seq<Seq<char>>| touched_from(pv, k as int)(q) || q == key,
                touched_from(pv, k - 1),
            );
        }
        touch_node(nodes, display, &prefix, u);
        k = k - 1;
    }
}

/// The values of a walk in progress.
pub struct ScanView {
    pub backend: Seq<char>,
    pub nodes: Seq<NodeState>,
    pub entries: Seq<EntryView>,
    pub permission_errors: u64,
    pub missing_path_races: u64,
    pub skipped_cross_device: u64,
    pub skipped_excluded: u64,
    pub scanned_files: u64,
    pub scanned_directories: u64,
    pub scanned_symlinks: u64,
    pub max_observed_depth: usize,
    pub depth_limit_hits: u64,
    pub timestamp: Duration,
    pub root_device: u64,
    /// The items still to visit; the last is visited next.
    pub stack: Seq<Seq<Seq<char>>>,
    /// The number of entries accounted so far.
    pub visits: u64,
}

/// One item of the walk, named by its components below the scan root.
#[derive(Debug)]
pub struct WalkItem {
    names: Vec<String>,
}

impl View for WalkItem {
    type V = Seq<Seq<char>>;

    closed spec fn view(&self) -> Seq<Seq<char>> {
        name_views(self.names@)
    }
}

impl WalkItem {
    /// The item with the given components below the scan root.
    pub fn from_names(names: Vec<String>) -> (w: WalkItem)
        ensures
            w@ == name_views(names@),
    {
        WalkItem { names }
    }

    /// How deep below the scan root the item lies.
    pub fn depth(&self) -> (d: usize)
        ensures
            d == self@.len(),
    {
        self.names.len()
    }

    /// The item's components.
    pub fn names(&self) -> (n: &Vec<String>)
        ensures
            name_views(n@) == self@,
    {
        &self.names
    }
}

/// Where the item with components `key` is found: the scan path for the
/// root, otherwise the components joined to it.
pub open spec fn scan_location(scan_path: Seq<char>, key: Seq<Seq<char>>) -> Seq<char> {
    if key.len() == 0 {
        scan_path
    } else {
        path_join(scan_path, join_slash(key))
    }
}

/// The path of an item on the filesystem.
pub fn item_scan_path(target: &Target, item: &WalkItem) -> (r: String)
    ensures
        r@ == scan_location(target.scan_path@, item@),
{
    if item.names.len() == 0 {
        target.scan_path.clone()
    } else {
        let rel = join_names(&item.names);
        crate::path::join_path(target.scan_path.as_str(), rel.as_str())
    }
}

/// How reading an item's metadata ended.
#[derive(Debug, Clone, Copy)]
pub enum MetadataOutcome {
    Found(EntryMeta),
    NotFound,
    PermissionDenied,
    /// Any other error.
    Failed,
}

/// What the walk does after visiting an item.
#[derive(Debug, Clone, Copy, PartialEq, Eq, Structural)]
pub enum Visit {
    /// Nothing more for this item.
    Done,
    /// Read the directory and hand its entries to `push_children`.
    ReadDirectory,
    /// The scan fails.
    Fail,
}

/// How reading one directory entry ended.
#[derive(Debug)]
pub enum ListedEntry {
    Name(String),
    NotFound,
    PermissionDenied,
    Failed,
}

/// How reading a directory ended.
#[derive(Debug)]
pub enum Listing {
    Entries(Vec<ListedEntry>),
    NotFound,
    PermissionDenied,
    Failed,
}

/// The first pattern text that does not parse as a glob, if any.
pub open spec fn first_unparsed(ex: Seq<Seq<char>>) -> Option<Seq<char>>
    decreases ex.len(),
{
    if ex.len() == 0 {
        None
    } else {
        match first_unparsed(ex.drop_last()) {
            Some(p) => Some(p),
            None => if glob_parses(ex.last()) {
                None
            } else {
                Some(ex.last())
            },
        }
    }
}

proof fn lemma_first_unparsed_prefix(ex: Seq<Seq<char>>, n: int)
    requires
        0 <= n <= ex.len(),
        first_unparsed(ex.take(n)) is Some,
    ensures
        first_unparsed(ex) == first_unparsed(ex.take(n)),
    decreases ex.len() - n,
{
    if n < ex.len() {
        assert(ex.take(n + 1).drop_last() =~= ex.take(n));
        lemma_first_unparsed_prefix(ex, n + 1);
    } else {
        assert(ex.take(n) =~= ex);
    }
}

/// The scanner that walks the filesystem itself, skipping what its exclude
/// patterns match.
pub struct NativeScanner {
    exclude: GlobSet,
}

/// What building a native scanner with the exclude patterns `ex` gives: the
/// first pattern that is not a glob is refused; otherwise the patterns are
/// compiled together, which either fails or gives a scanner that holds them.
pub open spec fn native_result_is(r: Result<NativeScanner, ScannerError>, ex: Seq<Seq<char>>) -> bool {
    match r {
        Ok(s) => first_unparsed(ex) is None && glob_set_builds(ex) && s.exclude_patterns() == ex,
        Err(ScannerError::InvalidExcludePattern { pattern }) => first_unparsed(ex) == Some(pattern@),
        Err(ScannerError::ExcludeSet { .. }) => first_unparsed(ex) is None && !glob_set_builds(ex),
        Err(ScannerError::UnsupportedScanner { .. }) => false,
    }
}

/// The path an exclude pattern is matched against: the item's components
/// joined to the display path (for the root, the display path and a `/`).
pub open spec fn exclude_location(display: Seq<char>, key: Seq<Seq<char>>) -> Seq<char> {
    path_join(display, join_slash(key))
}

impl NativeScanner {
    /// The exclude patterns the scanner holds.
    pub closed spec fn exclude_patterns(&self) -> Seq<Seq<char>> {
        set_patterns(self.exclude)
    }

    /// A scanner for the target, with its exclude patterns compiled.
    pub fn new(target: &Target) -> (r: Result<NativeScanner, ScannerError>)
        ensures
            native_result_is(r, name_views(target.exclude@)),
    {
        let ghost ex = name_views(target.exclude@);
        let mut builder = new_builder();
        let mut i: usize = 0;
        proof {
            assert(ex.take(0) =~= Seq::<Seq<char>>::empty());
        }
        while i < target.exclude.len()
            invariant
                ex == name_views(target.exclude@),
                i <= ex.len(),
                builder_patterns(builder) == ex.take(i as int),
                first_unparsed(ex.take(i as int)) is None,
            decreases ex.len() - i,
        {
            proof {
                assert(ex.take(i + 1).drop_last() =~= ex.take(i as int));
                assert(ex.take(i + 1).last() == target.exclude@[i as int]@);
            }
            match add_pattern(&mut builder, target.exclude[i].as_str()) {
                Ok(()) => {
                    assert(builder_patterns(builder) =~= ex.take(i + 1));
                },
                Err(_) => {
                    proof {
                        lemma_first_unparsed_prefix(ex, i + 1);
                    }
                    return Err(ScannerError::InvalidExcludePattern { pattern: target.exclude[i].clone() });
                },
            }
            i = i + 1;
        }
        assert(ex.take(i as int) =~= ex);
        match build_set(&builder) {
            Ok(exclude) => Ok(NativeScanner { exclude }),
            Err(e) => Err(ScannerError::ExcludeSet { reason: glob_error_text(&e) }),
        }
    }

    /// The path the exclude patterns are matched against for `item`.
    pub fn exclude_path(target: &Target, item: &WalkItem) -> (r: String)
        ensures
            r@ == exclude_location(target.display_path@, item@),
    {
        let rel = join_names(&item.names);
        crate::path::join_path(target.display_path.as_str(), rel.as_str())
    }

    /// Whether an exclude pattern matches `item`, seen at its display path.
    pub fn is_excluded(&self, target: &Target, item: &WalkItem) -> (b: bool)
        ensures
            b == (self.exclude_patterns().len() > 0
                && glob_set_matches(self.exclude_patterns(), exclude_location(target.display_path@, item@))),
    {
        if set_is_empty(&self.exclude) {
            return false;
        }
        let shown = NativeScanner::exclude_path(target, item);
        set_is_match(&self.exclude, shown.as_str())
    }
}

impl Scanner for NativeScanner {
    fn backend(&self) -> (name: &'static str)
        ensures
            name@ == "native"@,
    {
        "native"
    }
}

/// The walk state: nodes found so far, direct entries, counters and the
/// items still to visit.
pub struct ScanState {
    backend: String,
    nodes: Vec<NodeAccumulator>,
    entries: Vec<EntryObservation>,
    permission_errors: u64,
    missing_path_races: u64,
    skipped_cross_device: u64,
    skipped_excluded: u64,
    scanned_files: u64,
    scanned_directories: u64,
    scanned_symlinks: u64,
    max_observed_depth: usize,
    depth_limit_hits: u64,
    timestamp: Duration,
    root_device: u64,
    stack: Vec<WalkItem>,
    visits: u64,
}

pub open spec fn item_views(v: Seq<WalkItem>) -> Seq<Seq<Seq<char>>> {
    v.map_values(|w: WalkItem| w@)
}

pub open spec fn entry_views(v: Seq<EntryObservation>) -> Seq<EntryView> {
    v.map_values(|e: EntryObservation| e@)
}

impl View for ScanState {
    type V = ScanView;

    closed spec fn view(&self) -> ScanView {
        ScanView {
            backend: self.backend@,
            nodes: node_views(self.nodes@),
            entries: entry_views(self.entries@),
            permission_errors: self.permission_errors,
            missing_path_races: self.missing_path_races,
            skipped_cross_device: self.skipped_cross_device,
            skipped_excluded: self.skipped_excluded,
            scanned_files: self.scanned_files,
            scanned_directories: self.scanned_directories,
            scanned_symlinks: self.scanned_symlinks,
            max_observed_depth: self.max_observed_depth,
            depth_limit_hits: self.depth_limit_hits,
            timestamp: self.timestamp,
            root_device: self.root_device,
            stack: item_views(self.stack@),
            visits: self.visits,
        }
    }
}

/// Each node has distinct components; no count exceeds the number of
/// entries accounted.
pub open spec fn scan_wf(s: ScanView) -> bool {
    &&& keys_unique(s.nodes)
    &&& forall|i: int| 0 <= i < s.nodes.len() ==> counts_within(#[trigger] s.nodes[i], s.visits as int)
    &&& s.scanned_files <= s.visits
    &&& s.scanned_directories <= s.visits
    &&& s.scanned_symlinks <= s.visits
}

/// Each issue counter, the depth limit hits and the accounted entries can
/// grow by `n` more without reaching the largest `u64`.
pub open spec fn has_room_spec(s: ScanView, n: int) -> bool {
    &&& s.permission_errors + n < u64::MAX
    &&& s.missing_path_races + n < u64::MAX
    &&& s.skipped_cross_device + n < u64::MAX
    &&& s.skipped_excluded + n < u64::MAX
    &&& s.depth_limit_hits + n < u64::MAX
    &&& s.visits + n < u64::MAX
}

/// The direct entry recorded for a non-directory with components `key`.
pub open spec fn direct_entry_view(display: Seq<char>, key: Seq<Seq<char>>, meta: EntryMeta) -> EntryView {
    EntryView {
        parent_path: display_for(display, key.drop_last()),
        path: display_for(display, key),
        name: key.last(),
        entry_type: entry_type_of(entry_kind_of(meta.kind)),
        depth: key.len() as usize,
        blocks: block_bytes(meta.blocks),
        apparent: meta.size,
    }
}

/// The walk state once the entry with components `key` is accounted.
pub open spec fn account_view(s: ScanView, display: Seq<char>, key: Seq<Seq<char>>, meta: EntryMeta) -> ScanView {
    ScanView {
        nodes: accounted(s.nodes, display, key, meta),
        entries: if meta.kind != FileKind::Directory && key.len() > 0 {
            s.entries.push(direct_entry_view(display, key, meta))
        } else {
            s.entries
        },
        scanned_files: if meta.kind == FileKind::File { (s.scanned_files + 1) as u64 } else { s.scanned_files },
        scanned_directories: if meta.kind == FileKind::Directory {
            (s.scanned_directories + 1) as u64
        } else {
            s.scanned_directories
        },
        scanned_symlinks: if meta.kind == FileKind::Symlink { (s.scanned_symlinks + 1) as u64 } else { s.scanned_symlinks },
        visits: (s.visits + 1) as u64,
        ..s
    }
}

/// Accounting records one entry for each item that is not a directory and
/// lies below the scan root, and none for a directory or the root itself: its
/// parent's display path, its own, its last component as its name, its type
/// (files as files, symlinks as symlinks, anything else as other), its depth
/// (its number of components), its allocated bytes (512 per block) and its
/// apparent length. Stated where the byte count of its blocks fits in 64 bits.
pub proof fn law_entry_records(s: ScanView, display: Seq<char>, key: Seq<Seq<char>>, meta: EntryMeta)
    requires
        meta.blocks * 512 <= u64::MAX,
        key.len() <= usize::MAX,
    ensures
        (meta.kind == FileKind::Directory || key.len() == 0) ==> account_view(s, display, key, meta).entries == s.entries,
        (meta.kind != FileKind::Directory && key.len() > 0) ==> ({
            let es = account_view(s, display, key, meta).entries;
            let e = es.last();
            &&& es.len() == s.entries.len() + 1
            &&& es.drop_last() == s.entries
            &&& e.parent_path == display_for(display, key.take(key.len() - 1))
            &&& e.path == display_for(display, key)
            &&& e.name == key[key.len() - 1]
            &&& e.entry_type == (if meta.kind == FileKind::File {
                EntryType::File
            } else if meta.kind == FileKind::Symlink {
                EntryType::Symlink
            } else {
                EntryType::Other
            })
            &&& e.depth == key.len()
            &&& e.blocks == meta.blocks * 512
            &&& e.apparent == meta.size
        }),
{
    if meta.kind != FileKind::Directory && key.len() > 0 {
        let es = account_view(s, display, key, meta).entries;
        assert(es.drop_last() =~= s.entries);
        assert(key.take(key.len() - 1) =~= key.drop_last());
    }
}

/// The walk state and next step after visiting the item `key` whose metadata
/// read ended with `outcome`.
pub open spec fn visit_spec(s: ScanView, target: Target, key: Seq<Seq<char>>, outcome: MetadataOutcome) -> (ScanView, Visit) {
    match outcome {
        MetadataOutcome::NotFound => (ScanView { missing_path_races: (s.missing_path_races + 1) as u64, ..s }, Visit::Done),
        MetadataOutcome::PermissionDenied => (ScanView { permission_errors: (s.permission_errors + 1) as u64, ..s }, Visit::Done),
        MetadataOutcome::Failed => if key.len() == 0 {
            (s, Visit::Fail)
        } else {
            (ScanView { missing_path_races: (s.missing_path_races + 1) as u64, ..s }, Visit::Done)
        },
        MetadataOutcome::Found(meta) => if target.no_cross_filesystem && meta.device != s.root_device {
            (ScanView { skipped_cross_device: (s.skipped_cross_device + 1) as u64, ..s }, Visit::Done)
        } else {
            let s1 = ScanView {
                max_observed_depth: if s.max_observed_depth >= key.len() { s.max_observed_depth } else { key.len() as usize },
                ..s
            };
            let s2 = account_view(s1, target.display_path@, key, meta);
            if meta.kind == FileKind::Directory {
                if target.max_depth matches Some(m) && key.len() >= m {
                    (ScanView { depth_limit_hits: (s2.depth_limit_hits + 1) as u64, ..s2 }, Visit::Done)
                } else {
                    (s2, Visit::ReadDirectory)
                }
            } else {
                (s2, Visit::Done)
            }
        },
    }
}

/// What visiting an item does to the walk's counters, for every outcome of
/// reading its metadata: a vanished item counts as a missing-path race, a
/// refused one as a permission error, and any other failure fails the scan at
/// the root and counts as a race below it; an item on another device, when
/// the target stays on one, is skipped and counted so. Any other item counts
/// once among the scanned files, directories or symlinks by its kind, raises
/// the deepest depth seen to its own, and when it is a directory the walk
/// reads it unless it lies at or below the maximum depth, which counts a
/// depth-limit hit instead. Counts are stated where none is at the largest
/// `u64`.
pub proof fn law_visit_outcomes(s: ScanView, target: Target, key: Seq<Seq<char>>, outcome: MetadataOutcome)
    requires
        s.permission_errors < u64::MAX,
        s.missing_path_races < u64::MAX,
        s.skipped_cross_device < u64::MAX,
        s.scanned_files < u64::MAX,
        s.scanned_directories < u64::MAX,
        s.scanned_symlinks < u64::MAX,
        s.depth_limit_hits < u64::MAX,
        s.visits < u64::MAX,
        key.len() <= usize::MAX,
    ensures
        outcome == MetadataOutcome::NotFound ==> visit_spec(s, target, key, outcome) == (ScanView {
            missing_path_races: (s.missing_path_races + 1) as u64,
            ..s
        }, Visit::Done),
        outcome == MetadataOutcome::PermissionDenied ==> visit_spec(s, target, key, outcome) == (ScanView {
            permission_errors: (s.permission_errors + 1) as u64,
            ..s
        }, Visit::Done),
        (outcome == MetadataOutcome::Failed && key.len() == 0) ==> visit_spec(s, target, key, outcome) == (s, Visit::Fail),
        (outcome == MetadataOutcome::Failed && key.len() > 0) ==> visit_spec(s, target, key, outcome) == (ScanView {
            missing_path_races: (s.missing_path_races + 1) as u64,
            ..s
        }, Visit::Done),
        (outcome matches MetadataOutcome::Found(meta) && target.no_cross_filesystem && meta.device != s.root_device)
            ==> visit_spec(s, target, key, outcome) == (ScanView { skipped_cross_device: (s.skipped_cross_device + 1) as u64, ..s }, Visit::Done),
        outcome matches MetadataOutcome::Found(meta) ==> (!(target.no_cross_filesystem && meta.device != s.root_device) ==> ({
            let n = visit_spec(s, target, key, outcome).0;
            let v = visit_spec(s, target, key, outcome).1;
            let limited = target.max_depth matches Some(m) && key.len() >= m;
            &&& n.scanned_files == s.scanned_files + (if meta.kind == FileKind::File { 1int } else { 0int })
            &&& n.scanned_directories == s.scanned_directories + (if meta.kind == FileKind::Directory { 1int } else { 0int })
            &&& n.scanned_symlinks == s.scanned_symlinks + (if meta.kind == FileKind::Symlink { 1int } else { 0int })
            &&& n.max_observed_depth == (if s.max_observed_depth >= key.len() { s.max_observed_depth as int } else { key.len() as int })
            &&& n.depth_limit_hits == s.depth_limit_hits + (if meta.kind == FileKind::Directory && limited { 1int } else { 0int })
            &&& n.permission_errors == s.permission_errors
            &&& n.missing_path_races == s.missing_path_races
            &&& n.skipped_cross_device == s.skipped_cross_device
            &&& n.skipped_excluded == s.skipped_excluded
            &&& n.visits == s.visits + 1
            &&& v == (if meta.kind == FileKind::Directory && !limited { Visit::ReadDirectory } else { Visit::Done })
        })),
{
}

/// Whether a node is reported: a directory no deeper than the report depth
/// (tree mode), or the root or a directory exactly at the report depth
/// (leaves mode).
pub open spec fn is_reported(target: Target, n: NodeState) -> bool {
    n.is_directory && match target.report_mode {
        ReportMode::Tree => n.key.len() <= target.report_depth,
        ReportMode::Leaves => n.key.len() == 0 || n.key.len() == target.report_depth,
    }
}

/// Which nodes a walk reports, for every target: the directories no deeper
/// than the report depth in tree mode; the root and the directories exactly
/// at the report depth in leaves mode; never a node that is not a directory.
pub proof fn law_report_selection(target: Target, nodes: Seq<NodeState>, n: NodeState)
    requires
        keys_unique(nodes),
        nodes.contains(n),
    ensures
        !n.is_directory ==> !report_order(target, nodes).contains(n),
        (n.is_directory && target.report_mode == ReportMode::Tree) ==> (report_order(target, nodes).contains(n)
            <==> n.key.len() <= target.report_depth),
        (n.is_directory && target.report_mode == ReportMode::Leaves) ==> (report_order(target, nodes).contains(n)
            <==> (n.key.len() == 0 || n.key.len() == target.report_depth)),
{
    law_report_order(target, nodes);
}

/// The reported nodes, in the order given.
pub open spec fn reported_nodes(target: Target, nodes: Seq<NodeState>) -> Seq<NodeState>
    decreases nodes.len(),
{
    if nodes.len() == 0 {
        seq![]
    } else {
        let r = reported_nodes(target, nodes.drop_last());
        if is_reported(target, nodes.last()) {
            r.push(nodes.last())
        } else {
            r
        }
    }
}

/// Where `x` goes in `t`: before the first node whose path sorts after it.
pub open spec fn key_position(t: Seq<NodeState>, x: NodeState) -> nat
    decreases t.len(),
{
    if t.len() == 0 {
        0
    } else if names_lt(x.key, t[0].key) {
        0
    } else {
        1 + key_position(t.drop_first(), x)
    }
}

/// The nodes in path order (an insertion sort).
pub open spec fn sorted_by_key(s: Seq<NodeState>) -> Seq<NodeState>
    decreases s.len(),
{
    if s.len() == 0 {
        s
    } else {
        let t = sorted_by_key(s.drop_last());
        t.insert(key_position(t, s.last()) as int, s.last())
    }
}

/// The reported nodes in path order.
pub open spec fn report_order(target: Target, nodes: Seq<NodeState>) -> Seq<NodeState> {
    sorted_by_key(reported_nodes(target, nodes))
}

/// What each node reports.
pub open spec fn observations_of(s: Seq<NodeState>) -> Seq<NodeView> {
    s.map_values(|n: NodeState| n.obs)
}

/// Whether `parent` is the same path as where some reported node lies on the
/// filesystem.
pub open spec fn lies_in_reported(target: Target, nodes: Seq<NodeState>, parent: Seq<char>) -> bool {
    let r = reported_nodes(target, nodes);
    exists|j: int| 0 <= j < r.len() && paths_equal(parent, scan_location(target.scan_path@, #[trigger] r[j].key))
}

/// The direct entries whose parent path is that of a reported node, in order.
pub open spec fn kept_entries(target: Target, nodes: Seq<NodeState>, entries: Seq<EntryView>) -> Seq<EntryView>
    decreases entries.len(),
{
    if entries.len() == 0 {
        seq![]
    } else {
        let r = kept_entries(target, nodes, entries.drop_last());
        if lies_in_reported(target, nodes, entries.last().parent_path) {
            r.push(entries.last())
        } else {
            r
        }
    }
}

proof fn lemma_key_position(t: Seq<NodeState>, x: NodeState, p: int)
    requires
        0 <= p <= t.len(),
        forall|k: int| 0 <= k < p ==> !names_lt(x.key, #[trigger] t[k].key),
        p == t.len() || names_lt(x.key, t[p].key),
    ensures
        key_position(t, x) == p,
    decreases p,
{
    if p > 0 {
        assert(!names_lt(x.key, t[0].key));
        assert forall|k: int| 0 <= k < p - 1 implies !names_lt(x.key, #[trigger] t.drop_first()[k].key) by {
            assert(t.drop_first()[k] == t[k + 1]);
        }
        lemma_key_position(t.drop_first(), x, p - 1);
    }
}

/// Each node's path sorts strictly before the next one's.
pub open spec fn keys_ascending(s: Seq<NodeState>) -> bool {
    forall|i: int, j: int| 0 <= i < j < s.len() ==> names_lt(#[trigger] s[i].key, #[trigger] s[j].key)
}

proof fn lemma_reported_nodes_from(target: Target, nodes: Seq<NodeState>)
    ensures
        forall|n: NodeState| #[trigger] reported_nodes(target, nodes).contains(n) <==> (nodes.contains(n) && is_reported(target, n)),
    decreases nodes.len(),
{
    if nodes.len() > 0 {
        let d = nodes.drop_last();
        lemma_reported_nodes_from(target, d);
        assert forall|n: NodeState| #[trigger] reported_nodes(target, nodes).contains(n) <==> (nodes.contains(n) && is_reported(target, n)) by {
            let r = reported_nodes(target, d);
            if nodes.contains(n) && is_reported(target, n) {
                let k = choose|k: int| 0 <= k < nodes.len() && nodes[k] == n;
                if k < nodes.len() - 1 {
                    assert(d[k] == n);
                    assert(d.contains(n));
                    assert(r.contains(n));
                    if is_reported(target, nodes.last()) {
                        let j = choose|j: int| 0 <= j < r.len() && r[j] == n;
                        assert(r.push(nodes.last())[j] == n);
                    }
                } else {
                    assert(r.push(nodes.last())[r.len() as int] == n);
                }
            }
            if reported_nodes(target, nodes).contains(n) {
                let j = choose|j: int| 0 <= j < reported_nodes(target, nodes).len() && reported_nodes(target, nodes)[j] == n;
                if j < r.len() {
                    assert(r[j] == n);
                    assert(r.contains(n));
                    let k = choose|k: int| 0 <= k < d.len() && d[k] == n;
                    assert(nodes[k] == n);
                } else {
                    assert(nodes[nodes.len() - 1] == n);
                }
            }
        }
    }
}

proof fn lemma_keys_unique_drop_last(s: Seq<NodeState>)
    requires
        keys_unique(s),
        s.len() > 0,
    ensures
        keys_unique(s.drop_last()),
        forall|k: int| 0 <= k < s.len() - 1 ==> (#[trigger] s.drop_last()[k]).key != s.last().key,
{
    assert forall|k: int| 0 <= k < s.len() - 1 implies (#[trigger] s.drop_last()[k]).key != s.last().key by {
        assert(s[k].key != s[s.len() - 1].key);
    }
    assert forall|i: int, j: int| 0 <= i < s.drop_last().len() && 0 <= j < s.drop_last().len() && i != j
        implies #[trigger] s.drop_last()[i].key != #[trigger] s.drop_last()[j].key by {
        assert(s[i].key != s[j].key);
    }
}

proof fn lemma_reported_keys_unique(target: Target, nodes: Seq<NodeState>)
    requires
        keys_unique(nodes),
    ensures
        keys_unique(reported_nodes(target, nodes)),
    decreases nodes.len(),
{
    if nodes.len() > 0 {
        let d = nodes.drop_last();
        lemma_keys_unique_drop_last(nodes);
        lemma_reported_keys_unique(target, d);
        lemma_reported_nodes_from(target, d);
        let r = reported_nodes(target, d);
        if is_reported(target, nodes.last()) {
            let t = r.push(nodes.last());
            assert forall|i: int, j: int| 0 <= i < t.len() && 0 <= j < t.len() && i != j implies #[trigger] t[i].key != #[trigger] t[j].key by {
                if i < r.len() && j < r.len() {
                    assert(t[i] == r[i] && t[j] == r[j]);
                } else if i < r.len() {
                    assert(r.contains(r[i]));
                    let k = choose|k: int| 0 <= k < d.len() && d[k] == r[i];
                    assert(t[i] == d[k]);
                } else {
                    assert(r.contains(r[j]));
                    let k = choose|k: int| 0 <= k < d.len() && d[k] == r[j];
                    assert(t[j] == d[k]);
                }
            }
        }
    }
}

proof fn lemma_key_position_bounds(t: Seq<NodeState>, x: NodeState)
    ensures
        key_position(t, x) <= t.len(),
        forall|k: int| 0 <= k < key_position(t, x) ==> !names_lt(x.key, #[trigger] t[k].key),
        key_position(t, x) < t.len() ==> names_lt(x.key, t[key_position(t, x) as int].key),
    decreases t.len(),
{
    if t.len() > 0 && !names_lt(x.key, t[0].key) {
        lemma_key_position_bounds(t.drop_first(), x);
        assert forall|k: int| 0 <= k < key_position(t, x) implies !names_lt(x.key, #[trigger] t[k].key) by {
            if k > 0 {
                assert(t[k] == t.drop_first()[k - 1]);
            }
        }
    }
}

proof fn lemma_sorted_members(s: Seq<NodeState>)
    ensures
        sorted_by_key(s).len() == s.len(),
        forall|n: NodeState| #[trigger] sorted_by_key(s).contains(n) <==> s.contains(n),
        sorted_by_key(s).to_multiset() == s.to_multiset(),
    decreases s.len(),
{
    broadcast use vstd::seq_lib::group_to_multiset_ensures;
    if s.len() > 0 {
        let d = s.drop_last();
        let x = s.last();
        lemma_sorted_members(d);
        let t = sorted_by_key(d);
        let p = key_position(t, x) as int;
        lemma_key_position_bounds(t, x);
        let u = t.insert(p, x);
        assert(u =~= t.take(p) + seq![x] + t.skip(p));
        assert(t =~= t.take(p) + t.skip(p));
        vstd::seq_lib::lemma_multiset_commutative(t.take(p), seq![x]);
        vstd::seq_lib::lemma_multiset_commutative(t.take(p) + seq![x], t.skip(p));
        vstd::seq_lib::lemma_multiset_commutative(t.take(p), t.skip(p));
        assert(s =~= d.push(x));
        assert(u.to_multiset() =~= s.to_multiset());
        assert forall|n: NodeState| #[trigger] u.contains(n) <==> s.contains(n) by {
            assert(u.to_multiset().count(n) == s.to_multiset().count(n));
        }
    }
}

proof fn lemma_sorted_ascending(s: Seq<NodeState>)
    requires
        keys_unique(s),
    ensures
        keys_ascending(sorted_by_key(s)),
    decreases s.len(),
{
    if s.len() > 0 {
        let d = s.drop_last();
        let x = s.last();
        lemma_keys_unique_drop_last(s);
        lemma_sorted_ascending(d);
        lemma_sorted_members(d);
        let t = sorted_by_key(d);
        let p = key_position(t, x) as int;
        lemma_key_position_bounds(t, x);
        let u = t.insert(p, x);
        assert forall|k: int| 0 <= k < t.len() implies (#[trigger] t[k]).key != x.key by {
            assert(t.contains(t[k]));
            assert(d.contains(t[k]));
            let j = choose|j: int| 0 <= j < d.len() && d[j] == t[k];
            assert(d[j].key != x.key);
        }
        assert forall|k: int| 0 <= k < p implies names_lt(#[trigger] t[k].key, x.key) by {
            lemma_names_lt_total(t[k].key, x.key);
        }
        assert forall|k: int| p < k < t.len() implies names_lt(x.key, #[trigger] t[k].key) by {
            lemma_names_lt_transitive(x.key, t[p].key, t[k].key);
        }
        assert forall|i: int, j: int| 0 <= i < j < u.len() implies names_lt(#[trigger] u[i].key, #[trigger] u[j].key) by {
            if j < p {
                assert(u[i] == t[i] && u[j] == t[j]);
            } else if j == p {
                assert(u[i] == t[i]);
            } else if i < p {
                assert(u[i] == t[i] && u[j] == t[j - 1]);
                if j - 1 >= p {
                    lemma_names_lt_transitive(t[i].key, x.key, t[j - 1].key);
                } else {
                }
            } else if i == p {
                assert(u[j] == t[j - 1]);
            } else {
                assert(u[i] == t[i - 1] && u[j] == t[j - 1]);
            }
        }
    }
}

/// The reported nodes of a walk whose nodes have distinct paths come out in
/// strictly ascending path order; the output holds each reported node once
/// and nothing else.
pub proof fn law_report_order(target: Target, nodes: Seq<NodeState>)
    requires
        keys_unique(nodes),
    ensures
        keys_ascending(report_order(target, nodes)),
        report_order(target, nodes).to_multiset() == reported_nodes(target, nodes).to_multiset(),
        forall|n: NodeState| #[trigger] report_order(target, nodes).contains(n) <==> (nodes.contains(n) && is_reported(target, n)),
{
    lemma_reported_keys_unique(target, nodes);
    lemma_sorted_ascending(reported_nodes(target, nodes));
    lemma_sorted_members(reported_nodes(target, nodes));
    lemma_reported_nodes_from(target, nodes);
}

fn node_is_reported(target: &Target, n: &NodeAccumulator) -> (b: bool)
    ensures
        b == is_reported(*target, n@),
{
    n.is_directory && match target.report_mode {
        ReportMode::Tree => n.key.len() <= target.report_depth,
        ReportMode::Leaves => n.key.len() == 0 || n.key.len() == target.report_depth,
    }
}

impl ScanState {
    pub closed spec fn wf(&self) -> bool {
        scan_wf(self@)
    }

    /// A walk that starts at the scan root, on `root_device`.
    pub fn new(backend: &str, timestamp: Duration, root_device: u64) -> (s: ScanState)
        ensures
            s.wf(),
            s@.backend == backend@,
            s@.nodes.len() == 0,
            s@.entries.len() == 0,
            s@.permission_errors == 0,
            s@.missing_path_races == 0,
            s@.skipped_cross_device == 0,
            s@.skipped_excluded == 0,
            s@.scanned_files == 0,
            s@.scanned_directories == 0,
            s@.scanned_symlinks == 0,
            s@.max_observed_depth == 0,
            s@.depth_limit_hits == 0,
            s@.timestamp == timestamp,
            s@.root_device == root_device,
            s@.stack == seq![Seq::<Seq<char>>::empty()],
            s@.visits == 0,
    {
        let mut stack: Vec<WalkItem> = Vec::new();
        let root = WalkItem { names: Vec::new() };
        assert(root@ =~= Seq::<Seq<char>>::empty());
        stack.push(root);
        let s = ScanState {
            backend: String::from_str(backend),
            nodes: Vec::new(),
            entries: Vec::new(),
            permission_errors: 0,
            missing_path_races: 0,
            skipped_cross_device: 0,
            skipped_excluded: 0,
            scanned_files: 0,
            scanned_directories: 0,
            scanned_symlinks: 0,
            max_observed_depth: 0,
            depth_limit_hits: 0,
            timestamp,
            root_device,
            stack,
            visits: 0,
        };
        assert(s@.stack =~= seq![Seq::<Seq<char>>::empty()]);
        assert(s@.nodes =~= Seq::<NodeState>::empty());
        s
    }

    /// Whether every counter can take `n` more steps.
    pub fn has_room(&self, n: u64) -> (b: bool)
        ensures
            b == has_room_spec(self@, n as int),
    {
        (self.permission_errors as u128 + n as u128) < u64::MAX as u128
            && (self.missing_path_races as u128 + n as u128) < u64::MAX as u128
            && (self.skipped_cross_device as u128 + n as u128) < u64::MAX as u128
            && (self.skipped_excluded as u128 + n as u128) < u64::MAX as u128
            && (self.depth_limit_hits as u128 + n as u128) < u64::MAX as u128
            && (self.visits as u128 + n as u128) < u64::MAX as u128
    }

    /// The next item to visit, taken off the stack.
    pub fn next_item(&mut self) -> (r: Option<WalkItem>)
        requires
            old(self).wf(),
        ensures
            final(self).wf(),
            old(self)@.stack.len() == 0 ==> r is None && final(self)@ == old(self)@,
            old(self)@.stack.len() > 0 ==> (r matches Some(item) && item@ == old(self)@.stack.last()
                && final(self)@ == (ScanView { stack: old(self)@.stack.drop_last(), ..old(self)@ })),
    {
        let r = self.stack.pop();
        proof {
            if old(self)@.stack.len() > 0 {
                assert(item_views(self.stack@) =~= old(self)@.stack.drop_last());
            }
        }
        r
    }

    /// Accounts the entry with components `key` and metadata `meta`.
    #[verifier::spinoff_prover]
    fn account_entry(&mut self, display: &str, key: &Vec<String>, meta: EntryMeta)
        requires
            old(self).wf(),
            old(self)@.visits + 1 < u64::MAX,
        ensures
            final(self)@ == account_view(old(self)@, display@, name_views(key@), meta),
            final(self).wf(),
    {
        let ghost s0 = self@;
        let ghost v = self.visits as int;
        let ghost kv = name_views(key@);
        let blocks: u64 = if meta.blocks > u64::MAX / 512 { u64::MAX } else { meta.blocks * 512 };
        let apparent = meta.size;
        proof {
            assert(blocks == block_bytes(meta.blocks));
            assert(counts_bounded(s0.nodes, v, |k: Seq<Seq<char>>| false));
        }
        if meta.kind == FileKind::Directory {
            let ghost n1: Seq<NodeState>;
            if key.len() > 0 {
                let p = take_names(key, key.len() - 1);
                let ghost pv = name_views(p@);
                proof {
                    assert(pv == kv.drop_last());
                    lemma_touch(s0.nodes, display@, pv, NodeUpdate::DirChild { blocks, apparent }, v, |k: Seq<Seq<char>>| false);
                    lemma_bounded_equiv(
                        touch(s0.nodes, display@, pv, update_fn(NodeUpdate::DirChild { blocks, apparent })),
                        v,
                        |k: Seq<Seq<char>>| false || k == pv,
                        touched_from(pv, pv.len() as int),
                    );
                    assert forall|j: int| 0 <= j < self.nodes@.len() && (#[trigger] self.nodes@[j])@.key == pv implies counts_within(self.nodes@[j]@, u64::MAX - 1) by {
                        assert(s0.nodes[j] == self.nodes@[j]@);
                    }
                }
                touch_node(&mut self.nodes, display, &p, NodeUpdate::DirChild { blocks, apparent });
                touch_ancestors_exec(
                    &mut self.nodes,
                    display,
                    &p,
                    NodeUpdate::ChildEntry { kind: EntryKind::Directory, blocks, apparent },
                    Ghost(v),
                );
                proof {
                    assert(update_fn(NodeUpdate::DirChild { blocks, apparent }) == (|x: NodeState| with_dir_child(x, blocks, apparent)));
                    assert(update_fn(NodeUpdate::ChildEntry { kind: EntryKind::Directory, blocks, apparent })
                        == (|x: NodeState| with_child_entry(x, EntryKind::Directory, blocks, apparent)));
                    n1 = node_views(self.nodes@);
                    assert(!touched_from(pv, 0)(kv));
                }
            } else {
                proof {
                    n1 = node_views(self.nodes@);
                    lemma_bounded_equiv(n1, v, |k: Seq<Seq<char>>| false, |k: Seq<Seq<char>>| false);
                }
            }
            let ghost done = if key.len() > 0 { touched_from(kv.drop_last(), 0) } else { |k: Seq<Seq<char>>| false };
            proof {
                if key.len() > 0 {
                    assert(counts_bounded(n1, v, done));
                } else {
                    assert(counts_bounded(n1, v, done));
                }
                assert(!done(kv));
                lemma_touch(n1, display@, kv, NodeUpdate::OwnDir { blocks, apparent }, v, done);
                assert forall|j: int| 0 <= j < self.nodes@.len() && (#[trigger] self.nodes@[j])@.key == kv implies counts_within(self.nodes@[j]@, u64::MAX - 1) by {
                    assert(n1[j] == self.nodes@[j]@);
                }
            }
            touch_node(&mut self.nodes, display, key, NodeUpdate::OwnDir { blocks, apparent });
            self.scanned_directories = self.scanned_directories + 1;
            proof {
                assert(update_fn(NodeUpdate::OwnDir { blocks, apparent }) == (|x: NodeState| with_own_dir(x, blocks, apparent)));
                let t = node_views(self.nodes@);
                assert(counts_bounded(t, v, done));
                assert forall|i: int| 0 <= i < t.len() implies counts_within(#[trigger] t[i], v + 1) by {
                    if done(t[i].key) {
                    } else {
                    }
                }
            }
        } else if key.len() > 0 {
            let p = take_names(key, key.len() - 1);
            let ghost pv = name_views(p@);
            let kind = match meta.kind {
                FileKind::File => EntryKind::File,
                FileKind::Directory => EntryKind::Directory,
                FileKind::Symlink => EntryKind::Symlink,
                FileKind::Special => EntryKind::Other,
                FileKind::Unknown => EntryKind::Other,
            };
            proof {
                assert(pv == kv.drop_last());
                lemma_touch(s0.nodes, display@, pv, NodeUpdate::DirectEntry { kind: meta.kind, blocks, apparent }, v, |k: Seq<Seq<char>>| false);
                lemma_bounded_equiv(
                    touch(s0.nodes, display@, pv, update_fn(NodeUpdate::DirectEntry { kind: meta.kind, blocks, apparent })),
                    v,
                    |k: Seq<Seq<char>>| false || k == pv,
                    touched_from(pv, pv.len() as int),
                );
                assert forall|j: int| 0 <= j < self.nodes@.len() && (#[trigger] self.nodes@[j])@.key == pv implies counts_within(self.nodes@[j]@, u64::MAX - 1) by {
                    assert(s0.nodes[j] == self.nodes@[j]@);
                }
            }
            touch_node(&mut self.nodes, display, &p, NodeUpdate::DirectEntry { kind: meta.kind, blocks, apparent });
            touch_ancestors_exec(&mut self.nodes, display, &p, NodeUpdate::ChildEntry { kind, blocks, apparent }, Ghost(v));
            let parent_path = display_path_for(display, &p);
            let path = display_path_for(display, key);
            let name = key[key.len() - 1].clone();
            self.entries.push(EntryObservation {
                parent_path,
                path,
                name,
                entry_type: entry_type_for(kind),
                depth: key.len(),
                blocks,
                apparent,
            });
            if meta.kind == FileKind::File {
                self.scanned_files = self.scanned_files + 1;
            }
            if meta.kind == FileKind::Symlink {
                self.scanned_symlinks = self.scanned_symlinks + 1;
            }
            proof {
                assert(update_fn(NodeUpdate::DirectEntry { kind: meta.kind, blocks, apparent })
                    == (|x: NodeState| with_direct_entry(x, meta.kind, blocks, apparent)));
                assert(update_fn(NodeUpdate::ChildEntry { kind, blocks, apparent })
                    == (|x: NodeState| with_child_entry(x, entry_kind_of(meta.kind), blocks, apparent)));
                let t = node_views(self.nodes@);
                assert forall|i: int| 0 <= i < t.len() implies counts_within(#[trigger] t[i], v + 1) by {
                    if touched_from(pv, 0)(t[i].key) {
                    } else {
                    }
                }
                assert(entry_views(self.entries@) =~= s0.entries.push(direct_entry_view(display@, kv, meta)));
            }
        } else {
            if meta.kind == FileKind::File {
                self.scanned_files = self.scanned_files + 1;
            }
            if meta.kind == FileKind::Symlink {
                self.scanned_symlinks = self.scanned_symlinks + 1;
            }
            proof {
                assert forall|i: int| 0 <= i < self@.nodes.len() implies counts_within(#[trigger] self@.nodes[i], v + 1) by {
                    assert(counts_within(s0.nodes[i], v));
                }
            }
        }
        self.visits = self.visits + 1;
        proof {
            assert(self@.nodes == accounted(s0.nodes, display@, kv, meta));
            assert(self@ == account_view(s0, display@, kv, meta));
        }
    }

    /// Visits `item`, whose metadata read ended with `outcome`: counts a
    /// vanished, unreadable or foreign-device entry, otherwise accounts it and
    /// says whether its directory is to be read next (a directory at the depth
    /// limit is counted instead). The scan fails only when the root's
    /// metadata cannot be read for another reason.
    #[verifier::spinoff_prover]
    pub fn visit(&mut self, target: &Target, item: &WalkItem, outcome: MetadataOutcome) -> (r: Visit)
        requires
            old(self).wf(),
            has_room_spec(old(self)@, 1),
        ensures
            final(self).wf(),
            (final(self)@, r) == visit_spec(old(self)@, *target, item@, outcome),
    {
        match outcome {
            MetadataOutcome::NotFound => {
                self.missing_path_races = self.missing_path_races + 1;
                Visit::Done
            },
            MetadataOutcome::PermissionDenied => {
                self.permission_errors = self.permission_errors + 1;
                Visit::Done
            },
            MetadataOutcome::Failed => {
                if item.names.len() == 0 {
                    Visit::Fail
                } else {
                    self.missing_path_races = self.missing_path_races + 1;
                    Visit::Done
                }
            },
            MetadataOutcome::Found(meta) => {
                if target.no_cross_filesystem && meta.device != self.root_device {
                    self.skipped_cross_device = self.skipped_cross_device + 1;
                    return Visit::Done;
                }
                let depth = item.names.len();
                if depth > self.max_observed_depth {
                    self.max_observed_depth = depth;
                }
                self.account_entry(target.display_path.as_str(), &item.names, meta);
                if meta.kind == FileKind::Directory {
                    let at_limit = match target.max_depth {
                        Some(m) => depth >= m,
                        None => false,
                    };
                    if at_limit {
                        self.depth_limit_hits = self.depth_limit_hits + 1;
                        Visit::Done
                    } else {
                        Visit::ReadDirectory
                    }
                } else {
                    Visit::Done
                }
            },
        }
    }

    /// Takes the entries of the directory `item`: each named entry becomes an
    /// item to visit, each vanished or unreadable one is counted. Returns
    /// whether the scan goes on; it stops at the first other error.
    #[verifier::spinoff_prover]
    pub fn push_children(&mut self, item: &WalkItem, listing: Listing) -> (ok: bool)
        requires
            old(self).wf(),
            listing matches Listing::Entries(v) ==> has_room_spec(old(self)@, v@.len() as int),
            has_room_spec(old(self)@, 1),
        ensures
            final(self).wf(),
            (final(self)@, ok) == children_spec(old(self)@, item@, listing_view(listing)),
    {
        match listing {
            Listing::NotFound => {
                self.missing_path_races = self.missing_path_races + 1;
                true
            },
            Listing::PermissionDenied => {
                self.permission_errors = self.permission_errors + 1;
                true
            },
            Listing::Failed => false,
            Listing::Entries(entries) => {
                let ghost es = listed_views(entries@);
                let ghost goal = entries_spec(self@, item@, es);
                let ghost expected = children_spec(old(self)@, item@, listing_view(listing));
                assert(goal == expected);
                let mut rest = entries;
                let total = rest.len();
                let mut n: usize = 0;
                let mut ok = true;
                assert(es.skip(0) =~= es);
                while rest.len() > 0
                    invariant_except_break
                        listed_views(rest@) == es.skip(n as int),
                        n <= es.len(),
                        has_room_spec(self@, (es.len() - n) as int),
                        entries_spec(self@, item@, es.skip(n as int)) == goal,
                        ok,
                    invariant
                        self.wf(),
                        total == es.len(),
                        goal == expected,
                    ensures
                        (self@, ok) == goal,
                    decreases rest@.len(),
                {
                    let ghost before_rest = rest@;
                    let ghost before = self@;
                    let e = rest.remove(0);
                    let ghost tail = es.skip(n as int);
                    proof {
                        assert(tail[0] == listed_views(before_rest)[0]);
                        assert(tail[0] == listed_view(e));
                        assert(listed_views(rest@) =~= listed_views(before_rest).drop_first());
                        assert(listed_views(rest@) =~= es.skip(n + 1));
                        assert(tail.drop_first() =~= es.skip(n + 1));
                    }
                    match e {
                        ListedEntry::Name(name) => {
                            let mut names = copy_names(&item.names);
                            names.push(name);
                            let child = WalkItem { names };
                            proof {
                                assert(child@ =~= item@.push(name@));
                            }
                            self.stack.push(child);
                            proof {
                                assert(item_views(self.stack@) =~= before.stack.push(item@.push(name@)));
                                assert(self@ == (ScanView { stack: before.stack.push(item@.push(name@)), ..before }));
                            }
                        },
                        ListedEntry::NotFound => {
                            self.missing_path_races = self.missing_path_races + 1;
                        },
                        ListedEntry::PermissionDenied => {
                            self.permission_errors = self.permission_errors + 1;
                        },
                        ListedEntry::Failed => {
                            ok = false;
                            break;
                        },
                    }
                    n = n + 1;
                }
                ok
            },
        }
    }

    /// Skips `item` when an exclude pattern of `scanner` matches it, counting
    /// it as excluded; says whether it was skipped.
    pub fn skip_excluded(&mut self, scanner: &NativeScanner, target: &Target, item: &WalkItem) -> (skipped: bool)
        requires
            old(self).wf(),
            has_room_spec(old(self)@, 1),
        ensures
            final(self).wf(),
            skipped == (scanner.exclude_patterns().len() > 0
                && glob_set_matches(scanner.exclude_patterns(), exclude_location(target.display_path@, item@))),
            skipped ==> final(self)@ == (ScanView { skipped_excluded: (old(self)@.skipped_excluded + 1) as u64, ..old(self)@ }),
            !skipped ==> final(self)@ == old(self)@,
    {
        if scanner.is_excluded(target, item) {
            self.note_excluded();
            true
        } else {
            false
        }
    }

    /// Counts an item skipped because an exclude pattern matches it.
    pub fn note_excluded(&mut self)
        requires
            old(self).wf(),
            has_room_spec(old(self)@, 1),
        ensures
            final(self).wf(),
            final(self)@ == (ScanView { skipped_excluded: (old(self)@.skipped_excluded + 1) as u64, ..old(self)@ }),
    {
        self.skipped_excluded = self.skipped_excluded + 1;
    }

    /// Ends the walk: the reported nodes in path order, the direct entries
    /// whose parent path is that of a reported node, and the counters.
    #[verifier::spinoff_prover]
    pub fn finish(self, target: &Target, duration: Duration) -> (r: ScanResult)
        ensures
            r.backend@ == self@.backend,
            r.observations@.map_values(|o: NodeObservation| o@) == observations_of(report_order(*target, self@.nodes)),
            r.entries@.map_values(|e: EntryObservation| e@) == kept_entries(*target, self@.nodes, self@.entries),
            r.permission_errors == self@.permission_errors,
            r.missing_path_races == self@.missing_path_races,
            r.skipped_cross_device == self@.skipped_cross_device,
            r.skipped_excluded == self@.skipped_excluded,
            r.scanned_files == self@.scanned_files,
            r.scanned_directories == self@.scanned_directories,
            r.scanned_symlinks == self@.scanned_symlinks,
            r.max_observed_depth == self@.max_observed_depth,
            r.depth_limit_hits == self@.depth_limit_hits,
            r.duration == duration,
            r.timestamp == self@.timestamp,
    {
        let ghost nv = self@.nodes;
        let ghost mut rs: Seq<NodeState> = seq![];
        let mut order: Vec<usize> = Vec::new();
        let mut locations: Vec<String> = Vec::new();
        let mut i: usize = 0;
        proof {
            assert(nv.take(0) =~= Seq::<NodeState>::empty());
        }
        while i < self.nodes.len()
            invariant
                nv == node_views(self.nodes@),
                i <= nv.len(),
                rs == reported_nodes(*target, nv.take(i as int)),
                forall|k: int| 0 <= k < order@.len() ==> #[trigger] order@[k] < nv.len(),
                order@.map_values(|k: usize| nv[k as int]) == sorted_by_key(rs),
                locations@.len() == rs.len(),
                forall|m: int| 0 <= m < rs.len() ==> #[trigger] locations@[m]@ == scan_location(target.scan_path@, rs[m].key),
            decreases nv.len() - i,
        {
            proof {
                assert(nv.take(i + 1).drop_last() =~= nv.take(i as int));
                assert(nv.take(i + 1).last() == nv[i as int]);
            }
            if node_is_reported(target, &self.nodes[i]) {
                let ghost t = order@.map_values(|k: usize| nv[k as int]);
                let ghost x = nv[i as int];
                let mut p: usize = 0;
                while p < order.len() && !names_less(&self.nodes[i].key, &self.nodes[order[p]].key)
                    invariant
                        p <= order@.len(),
                        i < nv.len(),
                        nv == node_views(self.nodes@),
                        x == nv[i as int],
                        forall|k: int| 0 <= k < order@.len() ==> #[trigger] order@[k] < nv.len(),
                        t == order@.map_values(|k: usize| nv[k as int]),
                        forall|k: int| 0 <= k < p ==> !names_lt(x.key, #[trigger] t[k].key),
                    decreases order@.len() - p,
                {
                    proof {
                        assert(t[p as int] == nv[order@[p as int] as int]);
                    }
                    p = p + 1;
                }
                proof {
                    if p < order@.len() {
                        assert(t[p as int] == nv[order@[p as int] as int]);
                    }
                    lemma_key_position(t, x, p as int);
                    assert(rs.push(x).drop_last() =~= rs);
                    assert(reported_nodes(*target, nv.take(i + 1)) == rs.push(x));
                    assert(sorted_by_key(rs.push(x)) == t.insert(p as int, x));
                }
                let ghost o0 = order@;
                order.insert(p, i);
                proof {
                    assert(order@ == o0.insert(p as int, i));
                    assert forall|k: int| 0 <= k < order@.len() implies #[trigger] order@[k] < nv.len() by {
                        if k < p {
                            assert(order@[k] == o0[k]);
                        } else if k > p {
                            assert(order@[k] == o0[k - 1]);
                        }
                    }
                    assert(order@.map_values(|k: usize| nv[k as int]) =~= t.insert(p as int, x));
                }
                let here = display_path_for(target.scan_path.as_str(), &self.nodes[i].key);
                locations.push(here);
                proof {
                    rs = rs.push(x);
                }
            }
            i = i + 1;
        }
        proof {
            assert(nv.take(i as int) =~= nv);
        }
        let ghost sorted = order@.map_values(|k: usize| nv[k as int]);
        let mut observations: Vec<NodeObservation> = Vec::new();
        let mut j: usize = 0;
        while j < order.len()
            invariant
                nv == node_views(self.nodes@),
                j <= order@.len(),
                forall|k: int| 0 <= k < order@.len() ==> #[trigger] order@[k] < nv.len(),
                sorted == order@.map_values(|k: usize| nv[k as int]),
                observations@.len() == j,
                forall|m: int| 0 <= m < j ==> #[trigger] observations@[m]@ == sorted[m].obs,
            decreases order@.len() - j,
        {
            let o = self.nodes[order[j]].obs.copy();
            observations.push(o);
            proof {
                assert(sorted[j as int] == nv[order@[j as int] as int]);
            }
            j = j + 1;
        }
        proof {
            assert(observations@.map_values(|o: NodeObservation| o@) =~= observations_of(sorted));
        }
        let ghost ev = self@.entries;
        let mut entries: Vec<EntryObservation> = Vec::new();
        let mut e: usize = 0;
        proof {
            assert(ev.take(0) =~= Seq::<EntryView>::empty());
        }
        while e < self.entries.len()
            invariant
                ev == entry_views(self.entries@),
                e <= ev.len(),
                rs == reported_nodes(*target, nv),
                locations@.len() == rs.len(),
                forall|m: int| 0 <= m < rs.len() ==> #[trigger] locations@[m]@ == scan_location(target.scan_path@, rs[m].key),
                entries@.map_values(|x: EntryObservation| x@) == kept_entries(*target, nv, ev.take(e as int)),
            decreases ev.len() - e,
        {
            let ghost parent = ev[e as int].parent_path;
            let mut found = false;
            let mut k: usize = 0;
            while k < locations.len() && !found
                invariant
                    k <= locations@.len(),
                    parent == self.entries@[e as int].parent_path@,
                    e < self.entries@.len(),
                    found ==> exists|m: int| 0 <= m < locations@.len() && paths_equal(parent, #[trigger] locations@[m]@),
                    !found ==> forall|m: int| 0 <= m < k ==> !paths_equal(parent, #[trigger] locations@[m]@),
                decreases locations@.len() - k + (if found { 0int } else { 1int }),
            {
                if same_path(self.entries[e].parent_path.as_str(), locations[k].as_str()) {
                    found = true;
                } else {
                    k = k + 1;
                }
            }
            proof {
                assert(ev.take(e + 1).drop_last() =~= ev.take(e as int));
                assert(ev.take(e + 1).last() == ev[e as int]);
                if found {
                    let m = choose|m: int| 0 <= m < locations@.len() && paths_equal(parent, #[trigger] locations@[m]@);
                    assert(locations@[m]@ == scan_location(target.scan_path@, rs[m].key));
                    assert(lies_in_reported(*target, nv, parent));
                } else {
                    if lies_in_reported(*target, nv, parent) {
                        let m = choose|m: int| 0 <= m < rs.len() && paths_equal(parent, scan_location(target.scan_path@, #[trigger] rs[m].key));
                        assert(locations@[m]@ == scan_location(target.scan_path@, rs[m].key));
                    }
                }
            }
            if found {
                entries.push(self.entries[e].copy());
                assert(entries@.map_values(|x: EntryObservation| x@) =~= kept_entries(*target, nv, ev.take(e as int)).push(ev[e as int]));
            }
            e = e + 1;
        }
        proof {
            assert(ev.take(e as int) =~= ev);
        }
        ScanResult {
            backend: self.backend,
            observations,
            entries,
            permission_errors: self.permission_errors,
            missing_path_races: self.missing_path_races,
            skipped_cross_device: self.skipped_cross_device,
            skipped_excluded: self.skipped_excluded,
            scanned_files: self.scanned_files,
            scanned_directories: self.scanned_directories,
            scanned_symlinks: self.scanned_symlinks,
            max_observed_depth: self.max_observed_depth,
            depth_limit_hits: self.depth_limit_hits,
            duration,
            timestamp: self.timestamp,
        }
    }
}

/// A directory entry read as values.
pub enum ListedView {
    Name(Seq<char>),
    NotFound,
    PermissionDenied,
    Failed,
}

pub open spec fn listed_view(e: ListedEntry) -> ListedView {
    match e {
        ListedEntry::Name(n) => ListedView::Name(n@),
        ListedEntry::NotFound => ListedView::NotFound,
        ListedEntry::PermissionDenied => ListedView::PermissionDenied,
        ListedEntry::Failed => ListedView::Failed,
    }
}

pub open spec fn listed_views(v: Seq<ListedEntry>) -> Seq<ListedView> {
    v.map_values(|e: ListedEntry| listed_view(e))
}

/// A directory read as values.
pub enum ListingView {
    Entries(Seq<ListedView>),
    NotFound,
    PermissionDenied,
    Failed,
}

pub open spec fn listing_view(l: Listing) -> ListingView {
    match l {
        Listing::Entries(v) => ListingView::Entries(listed_views(v@)),
        Listing::NotFound => ListingView::NotFound,
        Listing::PermissionDenied => ListingView::PermissionDenied,
        Listing::Failed => ListingView::Failed,
    }
}

/// The walk state after taking the entries `es` of directory `key`, in order,
/// and whether the walk goes on.
pub open spec fn entries_spec(s: ScanView, key: Seq<Seq<char>>, es: Seq<ListedView>) -> (ScanView, bool)
    decreases es.len(),
{
    if es.len() == 0 {
        (s, true)
    } else {
        match es[0] {
            ListedView::Name(n) => entries_spec(ScanView { stack: s.stack.push(key.push(n)), ..s }, key, es.drop_first()),
            ListedView::NotFound => entries_spec(ScanView { missing_path_races: (s.missing_path_races + 1) as u64, ..s }, key, es.drop_first()),
            ListedView::PermissionDenied => entries_spec(ScanView { permission_errors: (s.permission_errors + 1) as u64, ..s }, key, es.drop_first()),
            ListedView::Failed => (s, false),
        }
    }
}

/// The walk state after reading directory `key`, and whether the walk goes on.
pub open spec fn children_spec(s: ScanView, key: Seq<Seq<char>>, listing: ListingView) -> (ScanView, bool) {
    match listing {
        ListingView::Entries(es) => entries_spec(s, key, es),
        ListingView::NotFound => (ScanView { missing_path_races: (s.missing_path_races + 1) as u64, ..s }, true),
        ListingView::PermissionDenied => (ScanView { permission_errors: (s.permission_errors + 1) as u64, ..s }, true),
        ListingView::Failed => (s, false),
    }
}

} // verus!
