//! Models of the craft that others fly.

use crate::client::VehicleKind;
use vstd::prelude::*;

verus! {

/// A model, or a craft, by its pilot and kind.
#[derive(Debug, Clone, Copy, PartialEq, Eq, Structural)]
pub struct Craft {
    pub pilot: u8,
    pub kind: VehicleKind,
}

/// The first craft of a pilot.
pub open spec fn is_craft_of(crafts: Seq<Craft>, pilot: u8, r: Option<usize>) -> bool {
    match r {
        Some(j) => {
            &&& j < crafts.len()
            &&& crafts[j as int].pilot == pilot
            &&& forall|k: int| 0 <= k < j ==> (#[trigger] crafts[k]).pilot != pilot
        },
        None => forall|k: int| 0 <= k < crafts.len() ==> (#[trigger] crafts[k]).pilot != pilot,
    }
}

fn craft_of(crafts: &Vec<Craft>, pilot: u8) -> (r: Option<usize>)
    ensures
        is_craft_of(crafts@, pilot, r),
{
    let mut j: usize = 0;
    while j < crafts.len()
        invariant
            j <= crafts@.len(),
            forall|k: int| 0 <= k < j ==> (#[trigger] crafts@[k]).pilot != pilot,
        decreases crafts@.len() - j,
    {
        if crafts[j].pilot == pilot {
            return Some(j);
        }
        j = j + 1;
    }
    None
}

/// What a model does: it follows its pilot's craft while that is of its kind, else it goes.
pub open spec fn follows(model: Craft, crafts: Seq<Craft>, r: Option<usize>) -> bool {
    match r {
        Some(j) => is_craft_of(crafts, model.pilot, r) && crafts[j as int].kind == model.kind,
        None => forall|j: usize|
            #[trigger] is_craft_of(crafts, model.pilot, Some(j)) ==> crafts[j as int].kind
                != model.kind,
    }
}

/// The craft that each model follows, and the craft that need a model.
#[derive(Debug)]
pub struct ModelPlan {
    pub follow: Vec<Option<usize>>,
    pub spawn: Vec<bool>,
}

/// Some model of a pilot's craft stays.
pub open spec fn modelled(models: Seq<Craft>, follow: Seq<Option<usize>>, pilot: u8) -> bool {
    exists|i: int| 0 <= i < models.len() && (#[trigger] models[i]).pilot == pilot && follow[i] is Some
}

/// Keep one model for each craft: a craft that changed its kind gets a new one.
pub fn reconcile_vehicle_models(models: &Vec<Craft>, crafts: &Vec<Craft>) -> (p: ModelPlan)
    ensures
        p.follow@.len() == models@.len(),
        forall|i: int|
            0 <= i < models@.len() ==> follows(models@[i], crafts@, #[trigger] p.follow@[i]),
        p.spawn@.len() == crafts@.len(),
        forall|j: int|
            0 <= j < crafts@.len() ==> #[trigger] p.spawn@[j] == !modelled(
                models@,
                p.follow@,
                crafts@[j].pilot,
            ),
{
    let mut follow: Vec<Option<usize>> = Vec::new();
    let mut i: usize = 0;
    while i < models.len()
        invariant
            i <= models@.len(),
            follow@.len() == i,
            forall|k: int| 0 <= k < i ==> follows(models@[k], crafts@, #[trigger] follow@[k]),
        decreases models@.len() - i,
    {
        let at = craft_of(crafts, models[i].pilot);
        let f: Option<usize> = match at {
            Some(j) => if crafts[j].kind == models[i].kind {
                Some(j)
            } else {
                None
            },
            None => None,
        };
        proof {
            if f is None {
                let model = models@[i as int];
                assert forall|j: usize| #[trigger] is_craft_of(
                    crafts@,
                    model.pilot,
                    Some(j),
                ) implies crafts@[j as int].kind != model.kind by {
                    match at {
                        Some(x) => {
                            if x < j {
                                assert(crafts@[x as int].pilot != model.pilot);
                            }
                            if j < x {
                                assert(crafts@[j as int].pilot != model.pilot);
                            }
                        },
                        None => {
                            assert(crafts@[j as int].pilot != model.pilot);
                        },
                    }
                }
            }
        }
        follow.push(f);
        i = i + 1;
    }
    let mut spawn: Vec<bool> = Vec::new();
    let mut j: usize = 0;
    while j < crafts.len()
        invariant
            j <= crafts@.len(),
            follow@.len() == models@.len(),
            spawn@.len() == j,
            forall|k: int|
                0 <= k < j ==> #[trigger] spawn@[k] == !modelled(
                    models@,
                    follow@,
                    crafts@[k].pilot,
                ),
        decreases crafts@.len() - j,
    {
        let pilot: u8 = crafts[j].pilot;
        let mut found: bool = false;
        let mut m: usize = 0;
        while m < models.len()
            invariant
                m <= models@.len(),
                follow@.len() == models@.len(),
                found == exists|i: int|
                    0 <= i < m && (#[trigger] models@[i]).pilot == pilot && follow@[i] is Some,
            decreases models@.len() - m,
        {
            if models[m].pilot == pilot && follow[m].is_some() {
                found = true;
            }
            m = m + 1;
        }
        spawn.push(!found);
        j = j + 1;
    }
    ModelPlan { follow, spawn }
}

} // verus!
