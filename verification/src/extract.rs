//! Path extraction: walk the predecessor map backward from the goal until
//! the source, collecting the path goal-first. A missing or rootless entry
//! before the source is reached means no path exists.

use vstd::prelude::*;
use crate::coord::Coord;
use crate::coord_map::CoordMap;
use crate::search::PathError;

verus! {

/// The backward walk, bounded by `fuel` steps. The outer `None` means the
/// fuel ran out (only possible when the predecessor entries form a cycle,
/// which a search never records, since one entry per recorded cell is
/// enough fuel for any acyclic walk); `Some(None)` means the walk hit a
/// cell with no recorded predecessor before reaching the source;
/// `Some(Some(p))` is the extracted path, ordered from the goal down to the
/// cell adjacent to the source, the source itself excluded.
pub open spec fn extract_fuel(
    came: Map<Coord, Option<Coord>>,
    source: Coord,
    cur: Coord,
    fuel: nat,
) -> Option<Option<Seq<Coord>>>
    decreases fuel,
{
    if cur == source {
        Option::Some(Option::Some(Seq::empty()))
    } else if !came.dom().contains(cur) || came[cur] is None {
        Option::Some(Option::None)
    } else if fuel == 0 {
        Option::None
    } else {
        match came[cur] {
            Option::Some(p) => match extract_fuel(came, source, p, (fuel - 1) as nat) {
                Option::None => Option::None,
                Option::Some(Option::None) => Option::Some(Option::None),
                Option::Some(Option::Some(tail)) => Option::Some(
                    Option::Some(seq![cur] + tail),
                ),
            },
            Option::None => Option::Some(Option::None),
        }
    }
}

/// Prepend an already-walked prefix to the outcome of the remaining walk.
pub open spec fn compose(prefix: Seq<Coord>, r: Option<Option<Seq<Coord>>>) -> Option<
    Option<Seq<Coord>>,
> {
    match r {
        Option::None => Option::None,
        Option::Some(Option::None) => Option::Some(Option::None),
        Option::Some(Option::Some(t)) => Option::Some(Option::Some(prefix + t)),
    }
}

proof fn lemma_compose_empty(r: Option<Option<Seq<Coord>>>)
    ensures
        compose(Seq::empty(), r) == r,
{
    match r {
        Option::Some(Option::Some(t)) => {
            assert(Seq::<Coord>::empty() + t =~= t);
        },
        _ => {},
    }
}

/// Walk the predecessor map backward from `goal`, building the path
/// goal-first. Fails exactly when the model at fuel equal to the number of
/// recorded entries fails: a cell with no recorded predecessor is met
/// before the source, or the walk cycles.
pub fn extract_path(came: &CoordMap<Option<Coord>>, source: Coord, goal: Coord) -> (r: Result<
    Vec<Coord>,
    PathError,
>)
    requires
        came.wf(),
    ensures
        ({
            let fuel = came@.dom().len();
            match r {
                Result::Ok(path) => extract_fuel(came@, source, goal, fuel) == Option::Some(
                    Option::Some(path@),
                ),
                Result::Err(e) => e == PathError::NoPathFound && !(extract_fuel(
                    came@,
                    source,
                    goal,
                    fuel,
                ) matches Option::Some(Option::Some(_))),
            }
        }),
{
    proof {
        came.lemma_dom_len();
    }
    let ghost fuel: nat = came@.dom().len();
    let mut path: Vec<Coord> = Vec::new();
    let mut cur: Coord = goal;
    let mut rem: usize = came.len();
    proof {
        lemma_compose_empty(extract_fuel(came@, source, goal, fuel));
        assert(path@ =~= Seq::<Coord>::empty());
    }
    loop
        invariant
            came.wf(),
            fuel == came@.dom().len(),
            compose(path@, extract_fuel(came@, source, cur, rem as nat)) == extract_fuel(
                came@,
                source,
                goal,
                fuel,
            ),
        decreases rem,
    {
        if cur == source {
            proof {
                assert(path@ + Seq::<Coord>::empty() =~= path@);
            }
            return Result::Ok(path);
        }
        match came.get(cur) {
            Option::None => {
                return Result::Err(PathError::NoPathFound);
            },
            Option::Some(pred) => {
                match pred {
                    Option::None => {
                        return Result::Err(PathError::NoPathFound);
                    },
                    Option::Some(p) => {
                        if rem == 0 {
                            // out of fuel: the walk cycled without meeting the source
                            return Result::Err(PathError::NoPathFound);
                        }
                        let ghost old_path = path@;
                        path.push(cur);
                        proof {
                            let sub = extract_fuel(came@, source, p, (rem - 1) as nat);
                            assert(path@ =~= old_path + seq![cur]);
                            match sub {
                                Option::Some(Option::Some(t)) => {
                                    assert(old_path + (seq![cur] + t) =~= (old_path + seq![cur])
                                        + t);
                                },
                                _ => {},
                            }
                        }
                        cur = p;
                        rem = rem - 1;
                    },
                }
            },
        }
    }
}

} // verus!
