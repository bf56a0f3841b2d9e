//! Building the argument list a unit process is spawned with: the word's
//! fixed extra arguments, then its slash arguments interleaved with the
//! positional values taken from the token, then the name argument with the
//! generated client name.

use vstd::prelude::*;
use crate::text::views_of;
use crate::vocab::PrimitiveWord;

verus! {

/// `a` and `b` merged by strict alternation, starting with `a`; when one
/// side runs out the rest of the other follows.
pub open spec fn interleave<A>(a: Seq<A>, b: Seq<A>) -> Seq<A>
    decreases a.len() + b.len(),
{
    if a.len() == 0 {
        b
    } else if b.len() == 0 {
        a
    } else {
        seq![a[0], b[0]] + interleave(a.skip(1), b.skip(1))
    }
}

/// Where each element of the interleaving comes from, when `b` is no longer
/// than `a`: pairs alternate while `b` lasts, the rest of `a` follows.
pub proof fn lemma_interleave_index<A>(a: Seq<A>, b: Seq<A>)
    requires
        b.len() <= a.len(),
    ensures
        interleave(a, b).len() == a.len() + b.len(),
        forall|i: int|
            0 <= i < 2 * b.len() ==> interleave(a, b)[i] == (if i % 2 == 0 {
                a[i / 2]
            } else {
                b[i / 2]
            }),
        forall|i: int|
            2 * b.len() <= i < a.len() + b.len() ==> interleave(a, b)[i] == a[i - b.len()],
    decreases a.len() + b.len(),
{
    if a.len() != 0 && b.len() != 0 {
        lemma_interleave_index(a.skip(1), b.skip(1));
        assert forall|i: int| 0 <= i < 2 * b.len() implies interleave(a, b)[i] == (if i % 2 == 0 {
            a[i / 2]
        } else {
            b[i / 2]
        }) by {
            if i >= 2 {
                assert(interleave(a, b)[i] == interleave(a.skip(1), b.skip(1))[i - 2]);
            }
        }
        assert forall|i: int| 2 * b.len() <= i < a.len() + b.len() implies interleave(a, b)[i]
            == a[i - b.len()] by {
            assert(interleave(a, b)[i] == interleave(a.skip(1), b.skip(1))[i - 2]);
        }
    }
}

/// The views of an optional list of arguments; absent means none.
pub open spec fn opt_views(o: Option<Vec<String>>) -> Seq<Seq<char>> {
    match o {
        Some(v) => views_of(v@),
        None => seq![],
    }
}

/// The argument list `def` is spawned with for positional values `values`
/// and generated client name `name`: the extra arguments, the slash
/// arguments interleaved with the values (excess values are dropped; excess
/// slash arguments trail unset), then the name argument and the name.
pub open spec fn spec_spawn_args(
    def: PrimitiveWord,
    values: Seq<Seq<char>>,
    name: Seq<char>,
) -> Seq<Seq<char>> {
    let slash = opt_views(def.slash_args);
    let used = if values.len() <= slash.len() {
        values
    } else {
        values.take(slash.len() as int)
    };
    opt_views(def.extra_args) + interleave(slash, used) + seq![def.name_arg@, name]
}

/// Builds the argument list for spawning `def` as client `name`, given the
/// positional values of the token.
#[verifier::loop_isolation(false)]
pub fn spawn_args(def: &PrimitiveWord, values: &Vec<String>, name: &str) -> (r: Vec<String>)
    ensures
        r@.len() == spec_spawn_args(*def, views_of(values@), name@).len(),
        forall|i: int|
            0 <= i < r@.len() ==> r@[i]@ == spec_spawn_args(*def, views_of(values@), name@)[i],
{
    let ghost goal = spec_spawn_args(*def, views_of(values@), name@);
    let mut r: Vec<String> = Vec::new();
    match &def.extra_args {
        Some(extra) => {
            let mut i: usize = 0;
            while i < extra.len()
                invariant
                    0 <= i <= extra@.len(),
                    r@.len() == i,
                    forall|j: int| 0 <= j < i ==> r@[j]@ == extra@[j]@,
                decreases extra@.len() - i,
            {
                r.push(extra[i].clone());
                i = i + 1;
            }
        },
        None => {},
    }
    let ghost extra_len = opt_views(def.extra_args).len();
    match &def.slash_args {
        Some(slash) => {
            let used = if values.len() <= slash.len() {
                values.len()
            } else {
                slash.len()
            };
            proof {
                lemma_interleave_index(
                    opt_views(def.slash_args),
                    views_of(values@).take(used as int),
                );
                if values@.len() <= slash@.len() {
                    assert(views_of(values@).take(used as int) =~= views_of(values@));
                }
            }
            let mut i: usize = 0;
            while i < slash.len()
                invariant
                    0 <= i <= slash@.len(),
                    used == if values@.len() <= slash@.len() {
                        values@.len() as int
                    } else {
                        slash@.len() as int
                    },
                    used <= values@.len(),
                    used <= slash@.len(),
                    r@.len() == extra_len + (if i <= used {
                        2 * i
                    } else {
                        i + used
                    }),
                    forall|j: int| 0 <= j < extra_len ==> r@[j]@ == opt_views(def.extra_args)[j],
                    forall|j: int|
                        extra_len <= j < r@.len() ==> r@[j]@ == interleave(
                            opt_views(def.slash_args),
                            views_of(values@).take(used as int),
                        )[j - extra_len],
                decreases slash@.len() - i,
            {
                r.push(slash[i].clone());
                if i < used {
                    r.push(values[i].clone());
                }
                i = i + 1;
            }
        },
        None => {},
    }
    r.push(def.name_arg.clone());
    r.push(name.to_owned());
    proof {
        if views_of(values@).len() <= opt_views(def.slash_args).len() {
            assert(views_of(values@).take(views_of(values@).len() as int) =~= views_of(values@));
        }
        assert(r@.len() == goal.len());
        assert forall|i: int| 0 <= i < r@.len() implies r@[i]@ == goal[i] by {}
    }
    r
}

} // verus!
