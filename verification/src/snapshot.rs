//! Which composition effects a journal snapshot records: for each patch
//! owner whose requester is still declared, the newest inverse restoring
//! its target.

use vstd::prelude::*;
use vstd::utf8::encode_utf8;
use crate::component::ComponentTree;
use crate::error::{Error, InvariantIssue};
use crate::fiber::{first_fiber, lemma_first_fiber, same_str, Core, Inverse};
use crate::tree::{desired_spec, tree_lookup};

verus! {

/// Where one recorded composition effect comes from: patch owner `owner`,
/// its requester, fiber `fiber`, and that fiber's inverse `inverse`.
#[derive(Clone, Copy, Debug, PartialEq, Eq, Structural)]
pub struct EffectSource {
    pub owner: usize,
    pub fiber: usize,
    pub inverse: usize,
}

/// The position of the newest inverse in `acc` that restores the
/// composition at `target`.
pub open spec fn newest_restore(acc: Seq<Inverse>, target: Seq<char>) -> Option<int>
    decreases acc.len(),
{
    if acc.len() == 0 {
        None
    } else if acc.last() matches Inverse::RestoreComposition { target: t, .. } && t@ == target {
        Some(acc.len() - 1)
    } else {
        newest_restore(acc.drop_last(), target)
    }
}

/// What patch owner `k` contributes: nothing where its requester is no
/// longer declared in `desired`, else the newest inverse restoring its
/// target; a vanished requester, or one without such an inverse, breaks the
/// core's bookkeeping.
pub open spec fn owner_effect(c: Core, desired: ComponentTree, k: int) -> Result<Option<EffectSource>, Error> {
    let o = c.patch_owners@[k];
    match first_fiber(c.fibers@, o.fiber) {
        None => Err(Error::Invariant(InvariantIssue::PatchOwnerMissing)),
        Some(j) => if tree_lookup(desired, encode_utf8(c.fibers@[j].path@)) is None {
            Ok(None)
        } else {
            match newest_restore(c.fibers@[j].accumulator@, o.target@) {
                None => Err(Error::Invariant(InvariantIssue::CompositionInverseMissing)),
                Some(m) => Ok(Some(EffectSource { owner: k as usize, fiber: j as usize, inverse: m as usize })),
            }
        },
    }
}

/// The effects the first `n` patch owners contribute, in order, or the
/// first failure among them.
pub open spec fn effect_sources(c: Core, desired: ComponentTree, n: nat) -> Result<Seq<EffectSource>, Error>
    decreases n,
{
    if n == 0 {
        Ok(Seq::empty())
    } else {
        match effect_sources(c, desired, (n - 1) as nat) {
            Err(e) => Err(e),
            Ok(s) => match owner_effect(c, desired, n - 1) {
                Err(e) => Err(e),
                Ok(None) => Ok(s),
                Ok(Some(x)) => Ok(s.push(x)),
            },
        }
    }
}

/// The position of the newest inverse in `acc` restoring `target`.
fn find_newest_restore(acc: &Vec<Inverse>, target: &str) -> (r: Option<usize>)
    ensures
        match newest_restore(acc@, target@) {
            None => r is None,
            Some(m) => r == Some(m as usize),
        },
{
    let mut m: usize = acc.len();
    assert(acc@.take(m as int) =~= acc@);
    while m > 0
        invariant
            m <= acc@.len(),
            newest_restore(acc@, target@) == newest_restore(acc@.take(m as int), target@),
        decreases m,
    {
        let ghost prefix = acc@.take(m as int);
        assert(prefix.drop_last() =~= acc@.take(m - 1));
        assert(prefix.last() == acc@[m - 1]);
        match &acc[m - 1] {
            Inverse::RestoreComposition { target: t, .. } => {
                if same_str(t.as_str(), target) {
                    return Some(m - 1);
                }
            },
            _ => {},
        }
        m -= 1;
    }
    None
}

impl Core {
    /// Where each composition effect a journal snapshot of `desired`
    /// records comes from, in the order of the patch owners.
    pub fn journal_effect_sources(&self, desired: &ComponentTree) -> (r: Result<Vec<EffectSource>, Error>)
        requires
            self.well_formed(),
        ensures
            match effect_sources(*self, *desired, self.patch_owners@.len()) {
                Ok(s) => r matches Ok(v) && v@ == s,
                Err(e) => r == Err::<Vec<EffectSource>, Error>(e),
            },
    {
        let mut out: Vec<EffectSource> = Vec::new();
        let mut k: usize = 0;
        while k < self.patch_owners.len()
            invariant
                self.well_formed(),
                k <= self.patch_owners@.len(),
                effect_sources(*self, *desired, k as nat) == Ok::<Seq<EffectSource>, Error>(out@),
            decreases self.patch_owners@.len() - k,
        {
            let actor = self.patch_owners[k].fiber;
            proof {
                lemma_first_fiber(self.fibers@, actor);
            }
            let j = match self.find_fiber(actor) {
                None => {
                    proof {
                        lemma_sources_stop(*self, *desired, (k + 1) as nat, self.patch_owners@.len() as nat);
                    }
                    return Err(Error::Invariant(InvariantIssue::PatchOwnerMissing));
                },
                Some(j) => j,
            };
            if desired_spec(desired, self.fibers[j].path.as_str()).is_some() {
                match find_newest_restore(&self.fibers[j].accumulator, self.patch_owners[k].target.as_str()) {
                    None => {
                        proof {
                            lemma_sources_stop(*self, *desired, (k + 1) as nat, self.patch_owners@.len() as nat);
                        }
                        return Err(Error::Invariant(InvariantIssue::CompositionInverseMissing));
                    },
                    Some(m) => {
                        out.push(EffectSource { owner: k, fiber: j, inverse: m });
                    },
                }
            }
            k += 1;
        }
        Ok(out)
    }
}

/// Once the effects of a prefix of the owners fail, so do those of every
/// longer prefix, with the same failure.
proof fn lemma_sources_stop(c: Core, desired: ComponentTree, n: nat, total: nat)
    requires
        n <= total,
        effect_sources(c, desired, n) is Err,
    ensures
        effect_sources(c, desired, total) == effect_sources(c, desired, n),
    decreases total - n,
{
    if n < total {
        lemma_sources_stop(c, desired, n, (total - 1) as nat);
    }
}

} // verus!
