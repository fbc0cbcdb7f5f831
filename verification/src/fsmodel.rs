//! A model of the working directory — a map from file name to file
//! contents — and proofs of what applying a rotation plan does to it.

use vstd::prelude::*;
use crate::names::gen_name;
use crate::names::lemma_gen_name_injective;
use crate::plan::RotationInfo;
use crate::plan::plan_matches;

verus! {

/// A directory: each name that exists maps to the bytes of its file.
pub type DirModel = Map<Seq<char>, Seq<u8>>;

/// The effect of one rename on a directory: an existing source is moved
/// onto the target, overwriting it; a missing source leaves the directory
/// unchanged (the failed rename is tolerated, not fatal).
pub open spec fn apply_step(fs: DirModel, from: Seq<char>, to: Seq<char>) -> DirModel {
    if fs.dom().contains(from) {
        fs.remove(from).insert(to, fs[from])
    } else {
        fs
    }
}

/// The effect of a whole rotation plan, applied first step first.
pub open spec fn apply_plan(fs: DirModel, steps: Seq<RotationInfo>) -> DirModel
    decreases steps.len(),
{
    if steps.len() == 0 {
        fs
    } else {
        apply_plan(apply_step(fs, steps[0].from_filename@, steps[0].to_filename@), steps.skip(1))
    }
}

/// Whether `name` is one of the generations `0` through `n - 1` of the
/// chain rooted at `base`.
pub open spec fn in_chain(name: Seq<char>, base: Seq<char>, n: nat) -> bool {
    exists|k: int| 0 <= k < n && name == #[trigger] gen_name(base, k as nat)
}

/// Unrolls a plan application at its last step.
pub proof fn lemma_apply_plan_push(fs: DirModel, steps: Seq<RotationInfo>, st: RotationInfo)
    ensures
        apply_plan(fs, steps.push(st)) == apply_step(
            apply_plan(fs, steps),
            st.from_filename@,
            st.to_filename@,
        ),
    decreases steps.len(),
{
    if steps.len() == 0 {
        let m = apply_step(fs, st.from_filename@, st.to_filename@);
        assert(steps.push(st)[0] == st);
        assert(steps.push(st).skip(1) =~= Seq::<RotationInfo>::empty());
        assert(apply_plan(m, steps.push(st).skip(1)) == m);
        assert(apply_plan(fs, steps.push(st)) == m);
    } else {
        let m0 = apply_step(fs, steps[0].from_filename@, steps[0].to_filename@);
        assert(steps.push(st)[0] == steps[0]);
        assert(steps.push(st).skip(1) =~= steps.skip(1).push(st));
        assert(apply_plan(fs, steps.push(st)) == apply_plan(m0, steps.skip(1).push(st)));
        assert(apply_plan(fs, steps) == apply_plan(m0, steps.skip(1)));
        lemma_apply_plan_push(m0, steps.skip(1), st);
    }
}

/// A rotation whose source files are all absent leaves the directory
/// unchanged: on a first run, before any backups exist, every rename
/// fails harmlessly.
pub proof fn lemma_apply_plan_missing_sources(fs: DirModel, steps: Seq<RotationInfo>)
    requires
        forall|j: int|
            0 <= j < steps.len() ==> !fs.dom().contains((#[trigger] steps[j]).from_filename@),
    ensures
        apply_plan(fs, steps) == fs,
    decreases steps.len(),
{
    if steps.len() > 0 {
        assert(!fs.dom().contains(steps[0].from_filename@));
        assert(forall|j: int| 0 <= j < steps.skip(1).len() ==> steps.skip(1)[j] == steps[j + 1]);
        lemma_apply_plan_missing_sources(fs, steps.skip(1));
    }
}

/// What one rotation does to the chain of generations: each surviving
/// content moves up exactly one slot, the active name is freed, a missing
/// source leaves its target absent, only the step out of generation
/// `n - 2` can touch the oldest slot, and names outside the chain are
/// untouched. In particular no two generations ever collapse into one
/// file: this is why the plan runs highest generation first.
pub proof fn lemma_apply_plan_shifts(fs: DirModel, steps: Seq<RotationInfo>, base: Seq<char>, n: nat)
    requires
        n >= 2,
        plan_matches(steps, base, n),
    ensures
        !apply_plan(fs, steps).dom().contains(gen_name(base, 0)),
        forall|k: int|
            1 <= k <= n - 2 ==> (apply_plan(fs, steps).dom().contains(
                #[trigger] gen_name(base, k as nat),
            ) <==> fs.dom().contains(gen_name(base, (k - 1) as nat))),
        forall|k: int|
            1 <= k <= n - 2 && fs.dom().contains(gen_name(base, (k - 1) as nat)) ==> apply_plan(
                fs,
                steps,
            )[#[trigger] gen_name(base, k as nat)] == fs[gen_name(base, (k - 1) as nat)],
        fs.dom().contains(gen_name(base, (n - 2) as nat)) ==> {
            &&& apply_plan(fs, steps).dom().contains(gen_name(base, (n - 1) as nat))
            &&& apply_plan(fs, steps)[gen_name(base, (n - 1) as nat)] == fs[gen_name(
                base,
                (n - 2) as nat,
            )]
        },
        !fs.dom().contains(gen_name(base, (n - 2) as nat)) ==> {
            &&& (apply_plan(fs, steps).dom().contains(gen_name(base, (n - 1) as nat))
                <==> fs.dom().contains(gen_name(base, (n - 1) as nat)))
            &&& (fs.dom().contains(gen_name(base, (n - 1) as nat)) ==> apply_plan(fs, steps)[
                gen_name(base, (n - 1) as nat)
            ] == fs[gen_name(base, (n - 1) as nat)])
        },
        forall|name: Seq<char>|
            !(#[trigger] in_chain(name, base, n)) ==> {
                &&& (apply_plan(fs, steps).dom().contains(name) <==> fs.dom().contains(name))
                &&& (fs.dom().contains(name) ==> apply_plan(fs, steps)[name] == fs[name])
            },
    decreases n,
{
    let from0 = gen_name(base, (n - 2) as nat);
    let to0 = gen_name(base, (n - 1) as nat);
    assert(steps[0].from_filename@ == from0);
    assert(steps[0].to_filename@ == to0);
    let m1 = apply_step(fs, from0, to0);
    lemma_gen_name_injective(base, (n - 2) as nat, (n - 1) as nat);
    assert(apply_plan(fs, steps) == apply_plan(m1, steps.skip(1)));
    if n == 2 {
        assert(steps.skip(1).len() == 0);
        assert(apply_plan(m1, steps.skip(1)) == m1);
        assert(apply_plan(fs, steps) == m1);
        assert forall|name: Seq<char>| !(#[trigger] in_chain(name, base, n)) implies {
            &&& (m1.dom().contains(name) <==> fs.dom().contains(name))
            &&& (fs.dom().contains(name) ==> m1[name] == fs[name])
        } by {
            assert(name != from0);
            assert(name != to0);
        }
    } else {
        assert forall|j: int| 0 <= j < steps.skip(1).len() implies {
            &&& (#[trigger] steps.skip(1)[j]).from_filename@ == gen_name(base, (n - 3 - j) as nat)
            &&& steps.skip(1)[j].to_filename@ == gen_name(base, (n - 2 - j) as nat)
        } by {
            assert(steps.skip(1)[j] == steps[j + 1]);
        }
        assert(plan_matches(steps.skip(1), base, (n - 1) as nat));
        lemma_apply_plan_shifts(m1, steps.skip(1), base, (n - 1) as nat);
        let r = apply_plan(m1, steps.skip(1));
        // names below the moved pair are untouched by the first step
        assert forall|k: int| 0 <= k <= n - 3 implies #[trigger] gen_name(base, k as nat) != from0
            && gen_name(base, k as nat) != to0 by {
            lemma_gen_name_injective(base, k as nat, (n - 2) as nat);
            lemma_gen_name_injective(base, k as nat, (n - 1) as nat);
        }
        // the oldest slot is outside the whole tail plan
        assert(!in_chain(to0, base, (n - 1) as nat)) by {
            if in_chain(to0, base, (n - 1) as nat) {
                let k = choose|k: int|
                    0 <= k < n - 1 && to0 == #[trigger] gen_name(base, k as nat);
                lemma_gen_name_injective(base, (n - 1) as nat, k as nat);
            }
        }
        assert((r.dom().contains(to0) <==> m1.dom().contains(to0)) && (m1.dom().contains(to0)
            ==> r[to0] == m1[to0]));
        // the middle generations, through the tail plan on the shifted map
        assert forall|k: int| 1 <= k <= n - 2 implies {
            &&& (r.dom().contains(#[trigger] gen_name(base, k as nat)) <==> fs.dom().contains(
                gen_name(base, (k - 1) as nat),
            ))
            &&& (fs.dom().contains(gen_name(base, (k - 1) as nat)) ==> r[gen_name(base, k as nat)]
                == fs[gen_name(base, (k - 1) as nat)])
        } by {
            assert(gen_name(base, (k - 1) as nat) != from0);
            assert(gen_name(base, (k - 1) as nat) != to0);
            if k == n - 2 {
                assert(!m1.dom().contains(from0));
            }
        }
        // names outside the chain pass through both the first step and the
        // tail plan unchanged
        assert forall|name: Seq<char>| !(#[trigger] in_chain(name, base, n)) implies {
            &&& (r.dom().contains(name) <==> fs.dom().contains(name))
            &&& (fs.dom().contains(name) ==> r[name] == fs[name])
        } by {
            assert(name != from0);
            assert(name != to0);
            assert(!in_chain(name, base, (n - 1) as nat));
            assert((r.dom().contains(name) <==> m1.dom().contains(name)) && (m1.dom().contains(
                name,
            ) ==> r[name] == m1[name]));
        }
    }
}

/// Every name the directory holds is a generation of `base` below `n`.
pub open spec fn only_gens(fs: DirModel, base: Seq<char>, n: nat) -> bool {
    forall|name: Seq<char>| fs.dom().contains(name) ==> #[trigger] in_chain(name, base, n)
}

/// A directory that held at most generations `0` through `n - 1` holds,
/// after a rotation, at most generations `1` through `n - 1`: the chain
/// stays bounded, the active name is free again, and the content that sat
/// in the oldest retained slot is replaced by the one from the slot below
/// it.
pub proof fn lemma_rotation_bounded(fs: DirModel, steps: Seq<RotationInfo>, base: Seq<char>, n: nat)
    requires
        n >= 2,
        plan_matches(steps, base, n),
        only_gens(fs, base, n),
    ensures
        only_gens(apply_plan(fs, steps), base, n),
        !apply_plan(fs, steps).dom().contains(gen_name(base, 0)),
        fs.dom().contains(gen_name(base, (n - 2) as nat)) ==> apply_plan(fs, steps)[gen_name(
            base,
            (n - 1) as nat,
        )] == fs[gen_name(base, (n - 2) as nat)],
{
    lemma_apply_plan_shifts(fs, steps, base, n);
    let r = apply_plan(fs, steps);
    assert forall|name: Seq<char>| r.dom().contains(name) implies #[trigger] in_chain(
        name,
        base,
        n,
    ) by {
        if !in_chain(name, base, n) {
            // untouched by the plan, so it was already in the directory,
            // hence some generation below n: a contradiction
            assert(fs.dom().contains(name));
        }
    }
}

} // verus!
