use vstd::prelude::*;

use crate::tree::{Tree, bounded, leaf_paths, reductions, lemma_tree_bounded, lemma_leaf_path_deletes};

verus! {

/// All immediate reductions of `tree` (deletion of one non-root leaf), one per
/// non-root leaf in depth-first, left-to-right order.
///
/// Where two deletions give the same tree, the result holds it several times
/// (these are the multi-edges of the reduction DAG).
pub fn immediate_reductions(tree: &Tree) -> (r: Vec<Tree>)
    ensures
        r@.map_values(|t: Tree| t@) == reductions(tree@),
{
    proof {
        lemma_tree_bounded(tree);
    }
    let paths = tree.non_root_leaf_paths();
    let ghost lp = leaf_paths(tree@);
    let mut out: Vec<Tree> = Vec::new();
    let n = paths.len();
    let mut i: usize = 0;
    while i < n
        invariant
            n == paths@.len(),
            paths.deep_view() == lp,
            lp == leaf_paths(tree@),
            bounded(tree@),
            0 <= i <= n,
            out@.map_values(|t: Tree| t@) =~= reductions(tree@).take(i as int),
        decreases n - i,
    {
        let p = &paths[i];
        assert(p@ =~= lp[i as int]) by {
            assert(paths.deep_view()[i as int] == p.deep_view());
        }
        assert(lp.contains(lp[i as int]));
        proof {
            lemma_leaf_path_deletes(tree@, lp[i as int]);
        }
        let ghost before = out@;
        let sl = p.as_slice();
        assert(sl@ == lp[i as int]);
        match tree.delete_leaf(sl) {
            Ok(t) => {
                let ghost tv = t@;
                assert(tv == reductions(tree@)[i as int]);
                out.push(t);
                assert(out@.map_values(|t: Tree| t@) =~= before.map_values(|t: Tree| t@).push(tv));
                assert(reductions(tree@).take(i + 1) =~= reductions(tree@).take(i as int).push(tv));
            },
            Err(_) => {
                assert(false);
            },
        }
        assert(out@.map_values(|t: Tree| t@) =~= reductions(tree@).take(i + 1));
        i = i + 1;
    }
    assert(reductions(tree@).take(n as int) =~= reductions(tree@));
    out
}

} // verus!
