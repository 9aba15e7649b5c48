//! Directory discovery and input-to-output path planning.
//!
//! The directory tree under the input root is modelled as plain data: each
//! node carries its name and its subdirectories, kept in sorted name order
//! as they are added. Planning enumerates every directory of the tree and
//! re-roots each onto the output root.
use vstd::prelude::*;

use crate::bytes::{append_bytes, bytes_le, copy_bytes, lex_leq, lemma_lex_leq_connected,
    lemma_lex_leq_trans};
use crate::cat::{compute_outdir_paths, spec_map_out, spec_under, CatError};

verus! {

broadcast use vstd::seq::axiom_seq_index_decreases, vstd::std_specs::vec::axiom_vec_decreases_to_view,
    vstd::std_specs::vec::axiom_vec_index_decreases, vstd::seq_lib::group_to_multiset_ensures,
    vstd::multiset::group_multiset_axioms;

/// One directory of the input tree: its name — the full root path at the
/// root node, a single path component below it — and its subdirectories.
pub struct DirTree {
    pub name: Vec<u8>,
    pub subdirs: Vec<DirTree>,
}

impl DirTree {
    /// Subdirectories stand in sorted name order, at every level.
    pub open spec fn wf(self) -> bool
        decreases self,
    {
        &&& (forall|i: int, j: int|
            0 <= i < j < self.subdirs@.len() ==> lex_leq(
                #[trigger] self.subdirs@[i].name@,
                #[trigger] self.subdirs@[j].name@,
            ))
        &&& (forall|i: int| 0 <= i < self.subdirs@.len() ==> (#[trigger] self.subdirs@[i]).wf())
    }

    /// A directory with no subdirectories recorded yet.
    pub fn new(name: Vec<u8>) -> (r: DirTree)
        ensures
            r.name@ == name@,
            r.subdirs@.len() == 0,
            r.wf(),
    {
        DirTree { name, subdirs: Vec::new() }
    }

    /// Records one more subdirectory, keeping the subdirectories in sorted
    /// name order whatever order they arrive in.
    pub fn add_subdir(self, child: DirTree) -> (r: DirTree)
        requires
            self.wf(),
            child.wf(),
        ensures
            r.wf(),
            r.name@ == self.name@,
            r.subdirs@.to_multiset() == self.subdirs@.to_multiset().insert(child),
    {
        let ghost orig = self.subdirs@;
        let mut rest = self.subdirs;
        let mut out: Vec<DirTree> = Vec::new();
        while rest.len() > 0 && !bytes_le(&child.name, &rest[0].name)
            invariant
                child.wf(),
                out@ + rest@ =~= orig,
                forall|i: int|
                    0 <= i < out@.len() ==> lex_leq(#[trigger] out@[i].name@, child.name@),
            decreases rest@.len(),
        {
            proof {
                lemma_lex_leq_connected(child.name@, rest@[0].name@);
            }
            let d = rest.remove(0);
            out.push(d);
            proof {
                assert(out@ + rest@ =~= orig);
            }
        }
        let ghost split = out@.len() as int;
        let ghost target = orig.take(split) + seq![child] + orig.skip(split);
        proof {
            assert(out@ =~= orig.take(split));
            assert(rest@ =~= orig.skip(split));
        }
        out.push(child);
        proof {
            assert(out@ + rest@ =~= target);
        }
        while rest.len() > 0
            invariant
                out@ + rest@ =~= target,
            decreases rest@.len(),
        {
            let d = rest.remove(0);
            out.push(d);
            proof {
                assert(out@ + rest@ =~= target);
            }
        }
        proof {
            assert(out@ =~= target);
        }
        let r = DirTree { name: self.name, subdirs: out };
        proof {
            let s = r.subdirs@;
            // every element left of the split sorts at or before the child,
            // every element right of it at or after
            assert forall|i: int|
                split < i < s.len() implies lex_leq(child.name@, #[trigger] s[i].name@) by {
                assert(s[i] == orig[i - 1]);
                if split < orig.len() {
                    assert(lex_leq(child.name@, orig[split].name@));
                    if i - 1 > split {
                        lemma_lex_leq_trans(child.name@, orig[split].name@, orig[i - 1].name@);
                    }
                }
            }
            assert forall|i: int, j: int|
                0 <= i < j < s.len() implies lex_leq(
                #[trigger] s[i].name@,
                #[trigger] s[j].name@,
            ) by {
                if i < split && j < split {
                    assert(s[i] == orig[i] && s[j] == orig[j]);
                } else if i < split && j == split {
                    assert(s[i] == orig[i]);
                } else if i < split && j > split {
                    assert(s[i] == orig[i] && s[j] == orig[j - 1]);
                } else if i == split {
                } else {
                    assert(s[i] == orig[i - 1] && s[j] == orig[j - 1]);
                }
            }
            assert forall|i: int| 0 <= i < s.len() implies (#[trigger] s[i]).wf() by {
                if i < split {
                    assert(s[i] == orig[i]);
                } else if i > split {
                    assert(s[i] == orig[i - 1]);
                }
            }
            // the new subdirectories hold exactly the old ones and the child
            vstd::seq_lib::lemma_multiset_commutative(orig.take(split) + seq![child], orig.skip(
                split,
            ));
            vstd::seq_lib::lemma_multiset_commutative(orig.take(split), seq![child]);
            vstd::seq_lib::lemma_multiset_commutative(orig.take(split), orig.skip(split));
            assert(seq![child] =~= Seq::<DirTree>::empty().push(child));
            assert(orig.take(split) + orig.skip(split) =~= orig);
            assert(r.subdirs@.to_multiset() =~= orig.to_multiset().insert(child));
        }
        r
    }
}

/// Arrival order never matters: two sorted subdirectory lists with
/// distinct names that hold the same subdirectories are the same list. With
/// `add_subdir` keeping every level sorted, the tree a run builds — and so
/// the plan and every artifact path — depends only on which directories
/// exist, not on the order a listing yielded them in.
pub proof fn lemma_sorted_subdirs_unique(a: Seq<DirTree>, b: Seq<DirTree>)
    requires
        forall|i: int, j: int|
            0 <= i < j < a.len() ==> lex_leq(#[trigger] a[i].name@, #[trigger] a[j].name@)
                && a[i].name@ != a[j].name@,
        forall|i: int, j: int|
            0 <= i < j < b.len() ==> lex_leq(#[trigger] b[i].name@, #[trigger] b[j].name@)
                && b[i].name@ != b[j].name@,
        a.to_multiset() == b.to_multiset(),
    ensures
        a =~= b,
    decreases a.len(),
{
    if a.len() == 0 || b.len() == 0 {
        a.to_multiset_ensures();
        b.to_multiset_ensures();
        assert(a.len() == b.len());
    } else {
        assert(a.to_multiset().contains(a[0]));
        assert(b.to_multiset().contains(a[0]));
        assert(b.contains(a[0]));
        let j = choose|j: int| #![trigger b[j]] 0 <= j < b.len() && b[j] == a[0];
        assert(a.to_multiset().contains(b[0]));
        assert(a.contains(b[0]));
        let i = choose|i: int| #![trigger a[i]] 0 <= i < a.len() && a[i] == b[0];
        if j > 0 {
            // a[0] sits at position j of b, so b's head sorts at or before
            // it; b's head sits at position i of a, so a's head sorts at or
            // before that — the three names coincide, against distinctness
            assert(lex_leq(b[0].name@, b[j].name@) && b[0].name@ != b[j].name@);
            assert(i > 0);
            assert(lex_leq(a[0].name@, a[i].name@));
            crate::bytes::lemma_lex_leq_antisym(a[0].name@, b[0].name@);
        }
        assert(a[0] == b[0]);
        assert(a.drop_first() =~= a.remove(0));
        assert(b.drop_first() =~= b.remove(0));
        assert(a.drop_first().to_multiset() == a.to_multiset().remove(a[0]));
        assert(b.drop_first().to_multiset() == b.to_multiset().remove(b[0]));
        lemma_sorted_subdirs_unique(a.drop_first(), b.drop_first());
        assert forall|k: int| 0 <= k < a.len() implies a[k] == b[k] by {
            if k > 0 {
                assert(a[k] == a.drop_first()[k - 1]);
                assert(b[k] == b.drop_first()[k - 1]);
            }
        }
    }
}

/// The full path of a subdirectory under its parent's full path.
pub open spec fn child_full(parent: Seq<u8>, c: DirTree) -> Seq<u8> {
    parent + seq!['/' as u8] + c.name@
}

/// Every directory of the tree rooted at `t`, as full paths: the node
/// itself first, then the directories of each subtree in subdirectory
/// order.
pub open spec fn tree_paths(t: DirTree, full: Seq<u8>) -> Seq<Seq<u8>>
    decreases t, t.subdirs@.len() + 1nat,
{
    seq![full] + children_paths(t, full, t.subdirs@.len() as int)
}

/// The directories of the first `n` subtrees of `t`, as full paths.
pub open spec fn children_paths(t: DirTree, full: Seq<u8>, n: int) -> Seq<Seq<u8>>
    decreases t, n,
{
    if n <= 0 || n > t.subdirs@.len() {
        Seq::empty()
    } else {
        children_paths(t, full, n - 1) + tree_paths(
            t.subdirs@[n - 1],
            child_full(full, t.subdirs@[n - 1]),
        )
    }
}

/// The paths a vector of byte strings holds.
pub open spec fn paths_view(s: Seq<Vec<u8>>) -> Seq<Seq<u8>> {
    s.map_values(|p: Vec<u8>| p@)
}

fn collect_into(t: &DirTree, full: Vec<u8>, out: &mut Vec<Vec<u8>>)
    ensures
        paths_view(final(out)@) == paths_view(old(out)@) + tree_paths(*t, full@),
    decreases *t,
{
    let cur = copy_bytes(full.as_slice());
    out.push(cur);
    proof {
        assert(paths_view(out@) =~= paths_view(old(out)@) + seq![full@]);
        assert(paths_view(out@) + children_paths(*t, full@, 0) =~= paths_view(old(out)@) + seq![
            full@,
        ]);
    }
    let mut i: usize = 0;
    while i < t.subdirs.len()
        invariant
            i <= t.subdirs@.len(),
            paths_view(out@) == paths_view(old(out)@) + seq![full@] + children_paths(
                *t,
                full@,
                i as int,
            ),
        decreases t.subdirs@.len() - i,
    {
        let child = &t.subdirs[i];
        let mut cf = copy_bytes(full.as_slice());
        cf.push('/' as u8);
        append_bytes(&mut cf, child.name.as_slice());
        proof {
            assert(cf@ =~= child_full(full@, t.subdirs@[i as int]));
        }
        collect_into(child, cf, out);
        proof {
            assert(children_paths(*t, full@, i as int + 1) == children_paths(*t, full@, i as int)
                + tree_paths(t.subdirs@[i as int], child_full(full@, t.subdirs@[i as int])));
            assert(paths_view(out@) =~= paths_view(old(out)@) + seq![full@] + children_paths(
                *t,
                full@,
                i as int + 1,
            ));
        }
        i += 1;
    }
    proof {
        assert(paths_view(out@) =~= paths_view(old(out)@) + tree_paths(*t, full@));
    }
}

/// Enumerates every directory of the tree, the root first, each exactly
/// once, in a deterministic order.
pub fn collect_paths(in_dir: &DirTree) -> (r: Vec<Vec<u8>>)
    ensures
        paths_view(r@) == tree_paths(*in_dir, in_dir.name@),
{
    let root_path = copy_bytes(in_dir.name.as_slice());
    let mut out: Vec<Vec<u8>> = Vec::new();
    collect_into(in_dir, root_path, &mut out);
    proof {
        assert(paths_view(out@) =~= tree_paths(*in_dir, in_dir.name@));
    }
    out
}

/// A path under `a` that is reached through an intermediate directory under
/// `a` is itself under `a`.
proof fn lemma_under_trans(a: Seq<u8>, b: Seq<u8>, p: Seq<u8>)
    requires
        spec_under(a, b),
        spec_under(b, p),
    ensures
        spec_under(a, p),
{
    if p != b && b != a {
        assert(p.take(a.len() as int) =~= a) by {
            assert forall|i: int| 0 <= i < a.len() implies p.take(a.len() as int)[i] == a[i] by {
                assert(p[i] == p.take(b.len() as int)[i]);
                assert(b[i] == b.take(a.len() as int)[i]);
            }
        }
        assert(p[a.len() as int] == p.take(b.len() as int)[a.len() as int]);
    }
}

proof fn lemma_children_paths_under(t: DirTree, full: Seq<u8>, n: int)
    ensures
        forall|i: int|
            0 <= i < children_paths(t, full, n).len() ==> spec_under(
                full,
                #[trigger] children_paths(t, full, n)[i],
            ),
    decreases t, n,
{
    if 0 < n <= t.subdirs@.len() {
        lemma_children_paths_under(t, full, n - 1);
        let c = t.subdirs@[n - 1];
        let cf = child_full(full, c);
        lemma_tree_paths_under(c, cf);
        assert(spec_under(full, cf)) by {
            assert(cf.take(full.len() as int) =~= full);
        }
        assert forall|i: int|
            0 <= i < children_paths(t, full, n).len() implies spec_under(
            full,
            #[trigger] children_paths(t, full, n)[i],
        ) by {
            let pre = children_paths(t, full, n - 1);
            if i >= pre.len() {
                assert(children_paths(t, full, n)[i] == tree_paths(c, cf)[i - pre.len()]);
                lemma_under_trans(full, cf, tree_paths(c, cf)[i - pre.len()]);
            }
        }
    }
}

/// Every path the tree traversal emits lies under the root's own path.
pub proof fn lemma_tree_paths_under(t: DirTree, full: Seq<u8>)
    ensures
        forall|i: int|
            0 <= i < tree_paths(t, full).len() ==> spec_under(
                full,
                #[trigger] tree_paths(t, full)[i],
            ),
    decreases t, t.subdirs@.len() + 1nat,
{
    let n = t.subdirs@.len() as int;
    lemma_children_paths_under(t, full, n);
    assert forall|i: int|
        0 <= i < tree_paths(t, full).len() implies spec_under(
        full,
        #[trigger] tree_paths(t, full)[i],
    ) by {
        if i > 0 {
            assert(tree_paths(t, full)[i] == children_paths(t, full, n)[i - 1]);
        }
    }
}

/// One directory's job: where its input files stand and where its artifact
/// goes.
pub struct PathMapping {
    pub input_dir: Vec<u8>,
    pub output_dir: Vec<u8>,
}

/// The candidate input directories of a run: every directory of the tree in
/// recursive mode, the root alone otherwise.
pub open spec fn spec_plan_paths(tree: DirTree, recursive: bool) -> Seq<Seq<u8>> {
    if recursive {
        tree_paths(tree, tree.name@)
    } else {
        seq![tree.name@]
    }
}

/// Plans a whole run: enumerates the candidate input directories and pairs
/// each with its output directory under `out_dir`. Every candidate comes
/// from the tree itself, so re-rooting cannot fail.
pub fn plan_mappings(tree: &DirTree, out_dir: &Vec<u8>, recursive: bool) -> (r: Vec<PathMapping>)
    ensures
        r@.len() == spec_plan_paths(*tree, recursive).len(),
        forall|i: int|
            0 <= i < r@.len() ==> {
                &&& (#[trigger] r@[i]).input_dir@ == spec_plan_paths(*tree, recursive)[i]
                &&& r@[i].output_dir@ == spec_map_out(
                    tree.name@,
                    out_dir@,
                    spec_plan_paths(*tree, recursive)[i],
                )
            },
{
    let process_paths: Vec<Vec<u8>> = if recursive {
        collect_paths(tree)
    } else {
        let mut v: Vec<Vec<u8>> = Vec::new();
        v.push(copy_bytes(tree.name.as_slice()));
        proof {
            assert(paths_view(v@) =~= seq![tree.name@]);
        }
        v
    };
    proof {
        lemma_tree_paths_under(*tree, tree.name@);
    }
    let outdirs = match compute_outdir_paths(
        process_paths.len(),
        &tree.name,
        out_dir,
        &process_paths,
    ) {
        Ok(v) => v,
        Err(_) => {
            proof {
                assert forall|i: int|
                    0 <= i < process_paths@.len() implies spec_under(
                    tree.name@,
                    #[trigger] process_paths@[i]@,
                ) by {
                    assert(process_paths@[i]@ == paths_view(process_paths@)[i]);
                }
                assert(false);
            }
            vstd::pervasive::unreached()
        },
    };
    let mut mappings: Vec<PathMapping> = Vec::new();
    let mut i: usize = 0;
    while i < process_paths.len()
        invariant
            i <= process_paths@.len(),
            outdirs@.len() == process_paths@.len(),
            paths_view(process_paths@) == spec_plan_paths(*tree, recursive),
            forall|j: int|
                0 <= j < process_paths@.len() ==> #[trigger] outdirs@[j]@ == spec_map_out(
                    tree.name@,
                    out_dir@,
                    process_paths@[j]@,
                ),
            mappings@.len() == i,
            forall|j: int|
                0 <= j < i ==> {
                    &&& (#[trigger] mappings@[j]).input_dir@ == process_paths@[j]@
                    &&& mappings@[j].output_dir@ == outdirs@[j]@
                },
        decreases process_paths@.len() - i,
    {
        let input_dir = copy_bytes(process_paths[i].as_slice());
        let output_dir = copy_bytes(outdirs[i].as_slice());
        mappings.push(PathMapping { input_dir, output_dir });
        i += 1;
    }
    mappings
}

} // verus!
