//! The profile registry and the orchestrator's mutate phase.
//!
//! A game holds a list of profiles, at most one per name; each profile
//! owns its name, its ignored-update identifiers and its directory tree.
//! Importing first replaces any profile of the colliding name with a fresh
//! empty one — a destructive replace, never a merge — and later phases
//! fill the fresh tree. The runtime side mirrors the registry onto disk
//! and delegates mod installation to the external installer between the
//! two phases; a failure there leaves the created profile standing, as the
//! pipeline makes no attempt at rollback.

use vstd::prelude::*;
use crate::fstree::{DirTree, clone_bytes, clone_segs};

verus! {

/// One profile: its unique name, its ignored-update identifiers, and the
/// files under its directory.
pub struct Profile {
    pub name: Vec<u8>,
    pub ignored_updates: Vec<Vec<u8>>,
    pub tree: DirTree,
}

/// A game's profile registry.
pub struct Game {
    pub profiles: Vec<Profile>,
}

impl Game {
    /// Well-formed: profile names are unique and every tree is well-formed.
    pub open spec fn wf(self) -> bool {
        &&& forall|i: int, j: int|
            0 <= i < self.profiles@.len() && 0 <= j < self.profiles@.len() && i != j
                ==> #[trigger] self.profiles@[i].name@ != #[trigger] self.profiles@[j].name@
        &&& forall|i: int|
            0 <= i < self.profiles@.len() ==> (#[trigger] self.profiles@[i].tree).wf()
    }
}

/// A filter that no element fails keeps the sequence as it is.
proof fn lemma_filter_all_pass(s: Seq<Profile>, pred: spec_fn(Profile) -> bool)
    requires
        forall|k: int| 0 <= k < s.len() ==> pred(#[trigger] s[k]),
    ensures
        s.filter(pred) == s,
    decreases s.len(),
{
    reveal(Seq::filter);
    if s.len() > 0 {
        lemma_filter_all_pass(s.drop_last(), pred);
        assert(s.filter(pred) =~= s);
    } else {
        assert(s.filter(pred) =~= s);
    }
}

/// A filter that only the element at `i` fails removes exactly that
/// element.
proof fn lemma_filter_one_fails(s: Seq<Profile>, pred: spec_fn(Profile) -> bool, i: int)
    requires
        0 <= i < s.len(),
        !pred(s[i]),
        forall|k: int| 0 <= k < s.len() && k != i ==> pred(#[trigger] s[k]),
    ensures
        s.filter(pred) == s.remove(i),
{
    let a = s.subrange(0, i);
    let b = s.subrange(i, i + 1);
    let c = s.subrange(i + 1, s.len() as int);
    assert(s =~= a.add(b.add(c)));
    Seq::filter_distributes_over_add(a, b.add(c), pred);
    Seq::filter_distributes_over_add(b, c, pred);
    lemma_filter_all_pass(a, pred);
    lemma_filter_all_pass(c, pred);
    reveal_with_fuel(Seq::filter, 2);
    assert(b.drop_last() =~= Seq::<Profile>::empty());
    assert(b.last() == s[i]);
    assert(b.filter(pred) =~= Seq::<Profile>::empty());
    assert(s.filter(pred) =~= s.remove(i));
}

/// The position of the profile with the given name, if one exists.
fn find_profile(game: &Game, name: &Vec<u8>) -> (r: Option<usize>)
    ensures
        match r {
            Some(i) => i < game.profiles@.len() && game.profiles@[i as int].name@ == name@,
            None => forall|k: int|
                0 <= k < game.profiles@.len() ==> #[trigger] game.profiles@[k].name@ != name@,
        },
{
    let mut j: usize = 0;
    while j < game.profiles.len()
        invariant
            0 <= j <= game.profiles@.len(),
            forall|k: int| 0 <= k < j ==> #[trigger] game.profiles@[k].name@ != name@,
        decreases game.profiles@.len() - j,
    {
        if crate::paths::bytes_eq(game.profiles[j].name.as_slice(), name.as_slice()) {
            return Some(j);
        }
        j += 1;
    }
    None
}

/// The orchestrator's mutate phase: if a profile of this name exists it is
/// deleted outright, registry entry and directory contents both; a fresh
/// profile of the name is then created with the given ignored-update
/// identifiers (kept as given, duplicates and all) and an empty tree. The
/// result is the new profile's position. Every other profile is untouched.
pub fn prepare_profile(game: &mut Game, name: &Vec<u8>, ignored_updates: &Vec<Vec<u8>>) -> (r:
    usize)
    requires
        old(game).wf(),
    ensures
        final(game).wf(),
        final(game).profiles@.len() >= 1,
        r == final(game).profiles@.len() - 1,
        final(game).profiles@.take(r as int) == old(game).profiles@.filter(
            (|p: Profile| p.name@ != name@),
        ),
        final(game).profiles@[r as int].name@ == name@,
        final(game).profiles@[r as int].ignored_updates.deep_view()
            == ignored_updates.deep_view(),
        final(game).profiles@[r as int].tree@ == Map::<Seq<Seq<u8>>, Seq<u8>>::empty(),
        final(game).profiles@[r as int].tree.wf(),
{
    let ghost old_ps = game.profiles@;
    let ghost pred = |p: Profile| p.name@ != name@;
    let found = find_profile(game, name);
    match found {
        Some(idx) => {
            let _removed = game.profiles.remove(idx);
            proof {
                assert forall|k: int| 0 <= k < old_ps.len() && k != idx implies pred(
                    #[trigger] old_ps[k],
                ) by {
                    assert(old_ps[k].name@ != old_ps[idx as int].name@);
                }
                lemma_filter_one_fails(old_ps, pred, idx as int);
                assert forall|k: int| 0 <= k < game.profiles@.len() implies pred(
                    #[trigger] game.profiles@[k],
                ) by {
                    assert(game.profiles@[k] == if k < idx {
                        old_ps[k]
                    } else {
                        old_ps[k + 1]
                    });
                }
                assert forall|k: int, k2: int|
                    0 <= k < game.profiles@.len() && 0 <= k2 < game.profiles@.len() && k != k2
                    implies #[trigger] game.profiles@[k].name@ != #[trigger] game.profiles@[
                    k2
                ].name@ by {
                    assert(game.profiles@[k] == if k < idx {
                        old_ps[k]
                    } else {
                        old_ps[k + 1]
                    });
                    assert(game.profiles@[k2] == if k2 < idx {
                        old_ps[k2]
                    } else {
                        old_ps[k2 + 1]
                    });
                }
                assert forall|k: int| 0 <= k < game.profiles@.len() implies (
                #[trigger] game.profiles@[k].tree).wf() by {
                    assert(game.profiles@[k] == if k < idx {
                        old_ps[k]
                    } else {
                        old_ps[k + 1]
                    });
                }
            }
        },
        None => {
            proof {
                assert forall|k: int| 0 <= k < old_ps.len() implies pred(
                    #[trigger] old_ps[k],
                ) by {}
                lemma_filter_all_pass(old_ps, pred);
            }
        },
    }
    let ghost kept = game.profiles@;
    let newp = Profile {
        name: clone_bytes(name),
        ignored_updates: clone_segs(ignored_updates),
        tree: DirTree::new(),
    };
    game.profiles.push(newp);
    let r = game.profiles.len() - 1;
    proof {
        assert(game.profiles@.take(r as int) =~= kept);
        assert(kept == old_ps.filter(pred));
        assert forall|i: int, j2: int|
            0 <= i < game.profiles@.len() && 0 <= j2 < game.profiles@.len() && i != j2 implies
            #[trigger] game.profiles@[i].name@ != #[trigger] game.profiles@[j2].name@ by {
            if i == r as int {
                assert(pred(kept[j2]));
            } else if j2 == r as int {
                assert(pred(kept[i]));
            } else {
                assert(game.profiles@[i] == kept[i]);
                assert(game.profiles@[j2] == kept[j2]);
            }
        }
        assert forall|i: int| 0 <= i < game.profiles@.len() implies (#[trigger] game.profiles@[
            i
        ].tree).wf() by {
            if i < r as int {
                assert(game.profiles@[i] == kept[i]);
            }
        }
    }
    r
}

} // verus!
