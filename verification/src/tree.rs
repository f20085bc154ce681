//! The editor's file tree: one directory level at a time.
//!
//! The caller walks the filesystem; for each directory it hands over the
//! visible children (with the subtrees it already built for the
//! subdirectories), and this module assembles the level: hidden names are
//! skipped, each node carries its path relative to the content root, and
//! directories come first, each group alphabetical by name.

use vstd::prelude::*;
use crate::listing::is_hidden_name;
use crate::text::{lex_leq, lex_leq_bytes, subvec, SLASH};

verus! {

/// A node of the file tree: a directory with its children, or a file.
/// `rel` is the path relative to the content root, used in URLs.
pub enum FileNode {
    Dir { name: Vec<u8>, rel: Vec<u8>, children: Vec<FileNode> },
    File { name: Vec<u8>, rel: Vec<u8> },
}

/// One enumerated child of a directory, before assembly: its name,
/// whether it is a directory, and — for a directory — the already
/// assembled subtree.
pub struct RawNode {
    pub name: Vec<u8>,
    pub is_dir: bool,
    pub children: Vec<FileNode>,
}

pub open spec fn node_name(n: FileNode) -> Seq<u8> {
    match n {
        FileNode::Dir { name, .. } => name@,
        FileNode::File { name, .. } => name@,
    }
}

pub open spec fn node_rel(n: FileNode) -> Seq<u8> {
    match n {
        FileNode::Dir { rel, .. } => rel@,
        FileNode::File { rel, .. } => rel@,
    }
}

pub open spec fn node_is_dir(n: FileNode) -> bool {
    n is Dir
}

/// A child's path relative to the root: under the parent's, or its own
/// name at the top level.
pub open spec fn child_rel(parent_rel: Seq<u8>, name: Seq<u8>) -> Seq<u8> {
    if parent_rel.len() == 0 {
        name
    } else {
        parent_rel + seq![SLASH] + name
    }
}

/// The node an enumerated child produces.
pub open spec fn node_matches_raw(n: FileNode, parent_rel: Seq<u8>, r: RawNode) -> bool {
    &&& node_name(n) == r.name@
    &&& node_is_dir(n) == r.is_dir
    &&& node_rel(n) == child_rel(parent_rel, r.name@)
    &&& (n matches FileNode::Dir { children, .. } ==> children == r.children)
}

/// `ns` is exactly the sequence of nodes the visible children of `rs`
/// produce, in enumeration order.
pub open spec fn nodes_match(parent_rel: Seq<u8>, rs: Seq<RawNode>, ns: Seq<FileNode>) -> bool
    decreases rs.len(),
{
    if rs.len() == 0 {
        ns.len() == 0
    } else if !is_hidden_name(rs[0].name@) {
        ns.len() > 0 && node_matches_raw(ns[0], parent_rel, rs[0]) && nodes_match(
            parent_rel,
            rs.drop_first(),
            ns.drop_first(),
        )
    } else {
        nodes_match(parent_rel, rs.drop_first(), ns)
    }
}

proof fn lemma_nodes_match_push_kept(
    parent_rel: Seq<u8>,
    rs: Seq<RawNode>,
    ns: Seq<FileNode>,
    r: RawNode,
    n: FileNode,
)
    requires
        nodes_match(parent_rel, rs, ns),
        !is_hidden_name(r.name@),
        node_matches_raw(n, parent_rel, r),
    ensures
        nodes_match(parent_rel, rs.push(r), ns.push(n)),
    decreases rs.len(),
{
    if rs.len() == 0 {
        assert(rs.push(r)[0] == r);
        assert(ns.push(n)[0] == n);
        assert(rs.push(r).drop_first() =~= Seq::<RawNode>::empty());
        assert(ns.push(n).drop_first() =~= Seq::<FileNode>::empty());
        assert(nodes_match(parent_rel, rs.push(r).drop_first(), ns.push(n).drop_first()));
        assert(nodes_match(parent_rel, rs.push(r), ns.push(n)));
    } else {
        assert(rs.push(r)[0] == rs[0]);
        assert(rs.push(r).drop_first() =~= rs.drop_first().push(r));
        if !is_hidden_name(rs[0].name@) {
            assert(ns.len() > 0);
            assert(ns.push(n)[0] == ns[0]);
            assert(ns.push(n).drop_first() =~= ns.drop_first().push(n));
            lemma_nodes_match_push_kept(parent_rel, rs.drop_first(), ns.drop_first(), r, n);
            assert(nodes_match(parent_rel, rs.push(r).drop_first(), ns.push(n).drop_first()));
            assert(nodes_match(parent_rel, rs.push(r), ns.push(n)));
        } else {
            lemma_nodes_match_push_kept(parent_rel, rs.drop_first(), ns, r, n);
            assert(nodes_match(parent_rel, rs.push(r).drop_first(), ns.push(n)));
            assert(nodes_match(parent_rel, rs.push(r), ns.push(n)));
        }
    }
}

proof fn lemma_nodes_match_push_hidden(
    parent_rel: Seq<u8>,
    rs: Seq<RawNode>,
    ns: Seq<FileNode>,
    r: RawNode,
)
    requires
        nodes_match(parent_rel, rs, ns),
        is_hidden_name(r.name@),
    ensures
        nodes_match(parent_rel, rs.push(r), ns),
    decreases rs.len(),
{
    if rs.len() == 0 {
        assert(rs.push(r)[0] == r);
        assert(rs.push(r).drop_first() =~= Seq::<RawNode>::empty());
        assert(nodes_match(parent_rel, rs.push(r).drop_first(), ns));
        assert(nodes_match(parent_rel, rs.push(r), ns));
    } else {
        assert(rs.push(r)[0] == rs[0]);
        assert(rs.push(r).drop_first() =~= rs.drop_first().push(r));
        if !is_hidden_name(rs[0].name@) {
            lemma_nodes_match_push_hidden(parent_rel, rs.drop_first(), ns.drop_first(), r);
            assert(nodes_match(parent_rel, rs.push(r).drop_first(), ns.drop_first()));
            assert(nodes_match(parent_rel, rs.push(r), ns));
        } else {
            lemma_nodes_match_push_hidden(parent_rel, rs.drop_first(), ns, r);
            assert(nodes_match(parent_rel, rs.push(r), ns));
        }
    }
}

/// Tree order: directories before files, alphabetical within each group.
pub open spec fn node_le(a: FileNode, b: FileNode) -> bool {
    if node_is_dir(a) && !node_is_dir(b) {
        true
    } else if !node_is_dir(a) && node_is_dir(b) {
        false
    } else {
        lex_leq(node_name(a), node_name(b))
    }
}

pub open spec fn nodes_sorted(s: Seq<FileNode>) -> bool {
    forall|i: int, j: int| 0 <= i < j < s.len() ==> node_le(s[i], s[j])
}

pub proof fn lemma_node_le_total(a: FileNode, b: FileNode)
    ensures
        node_le(a, b) || node_le(b, a),
{
    if node_is_dir(a) == node_is_dir(b) {
        crate::text::lemma_lex_leq_total(node_name(a), node_name(b));
    }
}

pub proof fn lemma_node_le_trans(a: FileNode, b: FileNode, c: FileNode)
    requires
        node_le(a, b),
        node_le(b, c),
    ensures
        node_le(a, c),
{
    if node_is_dir(a) == node_is_dir(b) && node_is_dir(b) == node_is_dir(c) {
        crate::text::lemma_lex_leq_trans(node_name(a), node_name(b), node_name(c));
    }
}

fn node_le_exec(a: &FileNode, b: &FileNode) -> (r: bool)
    ensures
        r == node_le(*a, *b),
{
    let a_dir = match a {
        FileNode::Dir { .. } => true,
        FileNode::File { .. } => false,
    };
    let b_dir = match b {
        FileNode::Dir { .. } => true,
        FileNode::File { .. } => false,
    };
    if a_dir && !b_dir {
        true
    } else if !a_dir && b_dir {
        false
    } else {
        let an = match a {
            FileNode::Dir { name, .. } => name,
            FileNode::File { name, .. } => name,
        };
        let bn = match b {
            FileNode::Dir { name, .. } => name,
            FileNode::File { name, .. } => name,
        };
        lex_leq_bytes(an.as_slice(), bn.as_slice())
    }
}

/// Insert `n` into the sorted `out`, keeping it sorted.
#[verifier::loop_isolation(false)]
fn insert_node_sorted(out: &mut Vec<FileNode>, n: FileNode)
    requires
        nodes_sorted(old(out)@),
    ensures
        nodes_sorted(final(out)@),
        final(out)@.to_multiset() == old(out)@.to_multiset().insert(n),
{
    let mut p: usize = 0;
    while p < out.len() && node_le_exec(&out[p], &n)
        invariant
            0 <= p <= out@.len(),
            forall|k: int| 0 <= k < p ==> node_le(out@[k], n),
        decreases out@.len() - p,
    {
        p += 1;
    }
    let ghost before = out@;
    out.insert(p, n);
    proof {
        broadcast use vstd::seq_lib::to_multiset_insert;

        assert(out@ =~= before.insert(p as int, n));
        before.insert_ensures(p as int, n);
        assert forall|i: int, j: int| 0 <= i < j < out@.len() implies node_le(
            out@[i],
            out@[j],
        ) by {
            if p < before.len() {
                assert(!node_le(before[p as int], n));
                lemma_node_le_total(before[p as int], n);
            }
            if i == p && j > p + 1 {
                lemma_node_le_trans(n, before[p as int], before[j - 1]);
            }
        }
    }
}

/// Assemble one level of the file tree from the enumerated children of a
/// directory: hidden names skipped, relative paths attached, directories
/// first and each group alphabetical.
#[verifier::loop_isolation(false)]
pub fn assemble_level(parent_rel: &[u8], raw: Vec<RawNode>) -> (r: Vec<FileNode>)
    ensures
        nodes_sorted(r@),
        exists|mid: Seq<FileNode>|
            nodes_match(parent_rel@, raw@, mid) && r@.to_multiset() == mid.to_multiset(),
{
    let ghost orig = raw@;
    let mut rest = raw;
    let mut mid: Vec<FileNode> = Vec::new();
    let ghost mut i: int = 0;
    proof {
        assert(orig.take(0) =~= Seq::<RawNode>::empty());
    }
    while rest.len() > 0
        invariant
            0 <= i <= orig.len(),
            rest@ =~= orig.skip(i),
            nodes_match(parent_rel@, orig.take(i), mid@),
        decreases rest@.len(),
    {
        let ghost rg = orig[i];
        proof {
            assert(rest@[0] == orig[i]);
            assert(orig.take(i + 1) =~= orig.take(i).push(rg));
            assert(rest@.remove(0) =~= orig.skip(i + 1));
        }
        let c = rest.remove(0);
        if is_hidden(c.name.as_slice()) {
            proof {
                lemma_nodes_match_push_hidden(parent_rel@, orig.take(i), mid@, rg);
                i = i + 1;
            }
            continue ;
        }
        let rel = make_child_rel(parent_rel, c.name.as_slice());
        let node = if c.is_dir {
            FileNode::Dir { name: c.name, rel, children: c.children }
        } else {
            FileNode::File { name: c.name, rel }
        };
        proof {
            assert(node_matches_raw(node, parent_rel@, rg));
            lemma_nodes_match_push_kept(parent_rel@, orig.take(i), mid@, rg, node);
        }
        mid.push(node);
        proof {
            i = i + 1;
        }
    }
    proof {
        assert(orig.take(i) =~= orig);
        assert(nodes_match(parent_rel@, raw@, mid@));
    }
    let ghost mid_g = mid@;
    // sort: directories first, then names
    let mut rest2 = mid;
    let mut out: Vec<FileNode> = Vec::new();
    proof {
        broadcast use vstd::seq_lib::group_to_multiset_ensures;

        assert(out@.to_multiset().len() == 0);
        assert(out@.to_multiset().add(rest2@.to_multiset()) =~= mid_g.to_multiset());
    }
    while rest2.len() > 0
        invariant
            nodes_sorted(out@),
            out@.to_multiset().add(rest2@.to_multiset()) == mid_g.to_multiset(),
        decreases rest2@.len(),
    {
        let ghost rest_before = rest2@;
        let e = rest2.remove(0);
        proof {
            broadcast use vstd::seq_lib::group_to_multiset_ensures;

            assert(rest2@ =~= rest_before.remove(0));
            assert(rest2@.to_multiset() =~= rest_before.to_multiset().remove(e));
            assert(rest_before.to_multiset().contains(e));
        }
        insert_node_sorted(&mut out, e);
        proof {
            assert(out@.to_multiset().add(rest2@.to_multiset()) =~= mid_g.to_multiset());
        }
    }
    proof {
        broadcast use vstd::seq_lib::group_to_multiset_ensures;

        assert(rest2@.to_multiset().len() == 0);
        assert(out@.to_multiset().add(rest2@.to_multiset()) =~= out@.to_multiset());
        assert(nodes_match(parent_rel@, raw@, mid_g) && out@.to_multiset() == mid_g.to_multiset());
    }
    out
}

/// Re-export of the hidden-name test, for callers assembling trees.
fn is_hidden(name: &[u8]) -> (r: bool)
    ensures
        r == is_hidden_name(name@),
{
    crate::listing::is_hidden(name)
}

/// A child's relative path under its parent's.
fn make_child_rel(parent_rel: &[u8], name: &[u8]) -> (r: Vec<u8>)
    ensures
        r@ == child_rel(parent_rel@, name@),
{
    if parent_rel.len() == 0 {
        let r = subvec(name, 0, name.len());
        proof {
            assert(r@ =~= name@);
        }
        r
    } else {
        let mut r = subvec(parent_rel, 0, parent_rel.len());
        proof {
            assert(r@ =~= parent_rel@);
        }
        r.push(SLASH);
        crate::text::append(&mut r, name);
        r
    }
}

} // verus!
