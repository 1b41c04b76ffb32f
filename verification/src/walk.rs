//! The walker's bookkeeping: the stack of open ancestor directories and
//! their ignore rule sets, and the predicate that decides whether an entry
//! is yielded.
//!
//! The traversal itself (reading directories, following links) is the
//! embedding program's job; it reports every entry here, in depth-first
//! order, and honours the verdicts.

use vstd::prelude::*;

use crate::ignore::{is_ignored, rel_path_spec, basename, Ignores};

verus! {

/// How deep the parent stack remains after popping to `parent`: entries are
/// popped until the top is `parent` (or the stack is empty).
pub open spec fn pop_to(stack: Seq<String>, parent: Seq<char>) -> int
    decreases stack.len(),
{
    if stack.len() == 0 {
        0
    } else if stack.last()@ == parent {
        stack.len() as int
    } else {
        pop_to(stack.drop_last(), parent)
    }
}

/// A name whose first character is a dot is hidden; the special names `.`
/// and `..` (the walk root or a parent reference) are not.
pub open spec fn hidden_name(path: Seq<char>) -> bool {
    let b = basename(path);
    b.len() > 0 && b[0] == '.' && b != "."@ && b != ".."@
}

/// Whether the walker yields an entry at `path` under the given ignore
/// stack and options.
pub open spec fn entry_allowed(
    stack: Seq<Ignores>,
    path: Seq<char>,
    do_hidden: bool,
    check_ignores: bool,
) -> bool {
    &&& (do_hidden || !hidden_name(path))
    &&& (!check_ignores || !is_ignored(stack, path))
}

/// Whether the basename of `path` marks a hidden entry.
pub fn is_hidden_path(path: &str) -> (r: bool)
    ensures
        r == hidden_name(path@),
{
    let pchars = crate::chars::chars_of(path);
    let pn = pchars.len();
    let mut bstart: usize = 0;
    let mut q: usize = 0;
    while q < pn
        invariant
            pn == pchars@.len(),
            pchars@ == path@,
            bstart <= q <= pn,
            bstart > 0 ==> path@[bstart - 1] == '/',
            forall|w: int| bstart <= w < q ==> path@[w] != '/',
        decreases pn - q,
    {
        if pchars[q] == '/' {
            bstart = q + 1;
        }
        q = q + 1;
    }
    proof {
        if bstart > 0 {
            crate::ignore::lemma_basename_after_slash(path@, bstart - 1);
        } else {
            crate::ignore::lemma_basename_no_slash(path@);
        }
        assert(basename(path@) =~= path@.subrange(bstart as int, pn as int));
    }
    let blen = pn - bstart;
    if blen == 0 {
        return false;
    }
    if pchars[bstart] != '.' {
        return false;
    }
    if blen == 1 {
        // the name is exactly "."
        proof {
            reveal_strlit(".");
            assert(basename(path@) =~= "."@);
        }
        return false;
    }
    if blen == 2 && pchars[bstart + 1] == '.' {
        // the name is exactly ".."
        proof {
            reveal_strlit("..");
            assert(basename(path@) =~= ".."@);
        }
        return false;
    }
    proof {
        reveal_strlit(".");
        reveal_strlit("..");
        assert(basename(path@).len() == blen);
        assert(basename(path@)[0] == path@[bstart as int]);
        if blen == 2 {
            assert(basename(path@)[1] == path@[bstart as int + 1]);
        }
        assert(basename(path@) != "."@);
        assert(basename(path@) != ".."@);
    }
    true
}

/// The chain of open ancestor directories and their ignore rule sets,
/// maintained by the walker as it descends and backs out.
pub struct WalkState {
    parents: Vec<String>,
    ignores: Vec<Ignores>,
}

impl WalkState {
    /// Both stacks always have the same depth: one rule set per open
    /// directory.
    pub closed spec fn wf(self) -> bool {
        self.parents@.len() == self.ignores@.len()
    }

    pub closed spec fn parents_view(self) -> Seq<String> {
        self.parents@
    }

    pub closed spec fn ignores_view(self) -> Seq<Ignores> {
        self.ignores@
    }

    /// An empty chain, for the start of a walk.
    pub fn new() -> (r: WalkState)
        ensures
            r.wf(),
            r.parents_view().len() == 0,
            r.ignores_view().len() == 0,
    {
        WalkState { parents: Vec::new(), ignores: Vec::new() }
    }

    /// Pop directories that are no longer ancestors of the entry whose
    /// parent directory is `parent`; both stacks shrink in lockstep to the
    /// deepest occurrence of `parent`.
    pub fn pop_to_parent(&mut self, parent: &str)
        requires
            old(self).wf(),
        ensures
            final(self).wf(),
            final(self).parents_view() == old(self).parents_view().take(
                pop_to(old(self).parents_view(), parent@),
            ),
            final(self).ignores_view() == old(self).ignores_view().take(
                pop_to(old(self).parents_view(), parent@),
            ),
    {
        let pstr = parent.to_owned();
        loop
            invariant
                self.wf(),
                pstr@ == parent@,
                self.parents@.len() <= old(self).parents_view().len(),
                old(self).parents_view().len() == old(self).ignores_view().len(),
                pop_to(old(self).parents_view(), parent@) == pop_to(self.parents@, parent@),
                self.parents@ == old(self).parents_view().take(self.parents@.len() as int),
                self.ignores@ == old(self).ignores_view().take(self.parents@.len() as int),
            ensures
                pop_to(self.parents@, parent@) == self.parents@.len() as int,
            decreases self.parents@.len(),
        {
            let n = self.parents.len();
            if n == 0 {
                break ;
            }
            if (&self.parents[n - 1]).eq(&pstr) {
                break ;
            }
            let ghost pre_v = self.parents@;
            let ghost pre_ig = self.ignores@;
            proof {
                assert(pre_ig.len() == pre_v.len());
            }
            self.parents.pop();
            self.ignores.pop();
            proof {
                assert(self.ignores@ =~= pre_ig.drop_last());
                assert(self.parents@ =~= pre_v.drop_last());
                assert(self.parents@ =~= old(self).parents_view().take(
                    self.parents@.len() as int,
                ));
                assert(self.ignores@ =~= old(self).ignores_view().take(
                    self.parents@.len() as int,
                ));
            }
        }
        proof {
            assert(final(self).parents_view() =~= old(self).parents_view().take(
                pop_to(old(self).parents_view(), parent@),
            ));
        }
    }

    /// The walker's entry predicate: reject hidden entries (unless asked
    /// for) and entries the ignore stack matches (when ignore checking is
    /// on). Rejecting a directory prunes its whole subtree, because it is
    /// never pushed.
    pub fn allow_entry(&self, path: &str, do_hidden: bool, check_ignores: bool) -> (r: bool)
        requires
            forall|i: int|
                0 <= i < self.ignores_view().len() ==> ((
                #[trigger] self.ignores_view()[i]).patterns@.len() > 0
                    || self.ignores_view()[i].negated_patterns@.len() > 0) ==> rel_path_spec(
                    path@,
                    self.ignores_view()[i].root@,
                ) is Some,
        ensures
            r == entry_allowed(self.ignores_view(), path@, do_hidden, check_ignores),
    {
        if !do_hidden && is_hidden_path(path) {
            return false;
        }
        proof {
            assert(self.ignores@ == self.ignores_view());
        }
        if check_ignores && crate::ignore::match_patterns(path, &self.ignores) {
            return false;
        }
        true
    }

    /// Enter a directory: push it and its rule set onto the stacks.
    pub fn push_dir(&mut self, path: &str, ig: Ignores)
        requires
            old(self).wf(),
            ig.root@ == path@,
        ensures
            final(self).wf(),
            final(self).parents_view().len() == old(self).parents_view().len() + 1,
            final(self).parents_view().drop_last() == old(self).parents_view(),
            final(self).parents_view().last()@ == path@,
            final(self).ignores_view() == old(self).ignores_view().push(ig),
    {
        let ghost pre = self.parents@;
        self.parents.push(path.to_owned());
        self.ignores.push(ig);
        proof {
            assert(self.parents@.drop_last() =~= pre);
        }
    }

    /// How many directories are open.
    pub fn depth(&self) -> (r: usize)
        ensures
            r == self.parents_view().len(),
    {
        self.parents.len()
    }

    /// The rule sets of the open directories, outermost first.
    pub fn ignore_stack(&self) -> (r: &Vec<Ignores>)
        ensures
            r@ == self.ignores_view(),
    {
        &self.ignores
    }
}

} // verus!
