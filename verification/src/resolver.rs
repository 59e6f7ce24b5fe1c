use vstd::prelude::*;

verus! {

use crate::color::Rgba;
use crate::owners::{owner_color_spec, OwnerColorTable};
use crate::recolor::{assignment_views, Assignment};

/// One state definition out of the game's history data: its id and the
/// provinces it groups. Membership, not ownership.
pub struct StateDef {
    pub id: i64,
    pub provinces: Vec<i64>,
}

impl View for StateDef {
    type V = (i64, Seq<i64>);

    open spec fn view(&self) -> (i64, Seq<i64>) {
        (self.id, self.provinces@)
    }
}

pub open spec fn state_def_views(s: Seq<StateDef>) -> Seq<(i64, Seq<i64>)> {
    s.map_values(|d: StateDef| d@)
}

/// One state entry of the save data: the state's id and its owner tag.
pub struct SaveState {
    pub id: i64,
    pub owner: Vec<u8>,
}

impl View for SaveState {
    type V = (i64, Seq<u8>);

    open spec fn view(&self) -> (i64, Seq<u8>) {
        (self.id, self.owner@)
    }
}

pub open spec fn save_state_views(s: Seq<SaveState>) -> Seq<(i64, Seq<u8>)> {
    s.map_values(|d: SaveState| d@)
}

/// The province list of the first state definition carrying `id`, if any.
pub open spec fn state_provinces_spec(defs: Seq<(i64, Seq<i64>)>, id: i64) -> Option<Seq<i64>>
    decreases defs.len(),
{
    if defs.len() == 0 {
        None
    } else if defs[0].0 == id {
        Some(defs[0].1)
    } else {
        state_provinces_spec(defs.drop_first(), id)
    }
}

/// The ownership resolver: one assignment per save state whose id has a
/// state definition, in save order. The color is the owner's table color,
/// or the fully transparent sentinel when the owner has none; a state
/// without a definition contributes nothing.
pub open spec fn resolve_spec(
    saves: Seq<(i64, Seq<u8>)>,
    defs: Seq<(i64, Seq<i64>)>,
    table: Seq<(Seq<u8>, Rgba)>,
) -> Seq<(Seq<i64>, Rgba)>
    decreases saves.len(),
{
    if saves.len() == 0 {
        Seq::<(Seq<i64>, Rgba)>::empty()
    } else {
        let color = match owner_color_spec(table, saves[0].1) {
            Some(c) => c,
            None => Rgba::transparent_spec(),
        };
        let rest = resolve_spec(saves.drop_first(), defs, table);
        match state_provinces_spec(defs, saves[0].0) {
            Some(ids) => seq![(ids, color)] + rest,
            None => rest,
        }
    }
}

/// First-match lookup of a state definition by id.
#[verifier::loop_isolation(false)]
pub fn find_state(defs: &Vec<StateDef>, id: i64) -> (r: Option<usize>)
    ensures
        match r {
            Some(k) => k < defs@.len() && defs@[k as int].id == id
                && state_provinces_spec(state_def_views(defs@), id)
                == Some(defs@[k as int].provinces@),
            None => state_provinces_spec(state_def_views(defs@), id) is None,
        },
{
    let ghost dv = state_def_views(defs@);
    let mut i: usize = 0;
    proof {
        assert(dv.subrange(0, dv.len() as int) =~= dv);
    }
    while i < defs.len()
        invariant
            0 <= i <= defs@.len(),
            dv.len() == defs@.len(),
            state_provinces_spec(dv.subrange(i as int, dv.len() as int), id)
                == state_provinces_spec(dv, id),
        decreases defs@.len() - i,
    {
        let ghost rest = dv.subrange(i as int, dv.len() as int);
        proof {
            assert(rest[0] == dv[i as int]);
            assert(dv[i as int] == defs@[i as int]@);
            assert(rest.drop_first() =~= dv.subrange(i as int + 1, dv.len() as int));
        }
        if defs[i].id == id {
            return Some(i);
        }
        i += 1;
    }
    proof {
        assert(dv.subrange(i as int, dv.len() as int) =~= Seq::<(i64, Seq<i64>)>::empty());
    }
    None
}

#[verifier::loop_isolation(false)]
fn clone_ids(v: &Vec<i64>) -> (r: Vec<i64>)
    ensures
        r@ == v@,
{
    let mut r: Vec<i64> = Vec::new();
    let mut i: usize = 0;
    while i < v.len()
        invariant
            0 <= i <= v@.len(),
            r@ =~= v@.subrange(0, i as int),
        decreases v@.len() - i,
    {
        r.push(v[i]);
        proof {
            assert(r@ =~= v@.subrange(0, i as int + 1));
        }
        i += 1;
    }
    proof {
        assert(r@ =~= v@);
    }
    r
}

/// Resolves every save state to an assignment: the state's provinces paired
/// with its owner's color, the transparent sentinel standing in for an
/// unknown owner, states without a definition silently skipped.
#[verifier::loop_isolation(false)]
pub fn resolve(
    saves: &Vec<SaveState>,
    defs: &Vec<StateDef>,
    table: &OwnerColorTable,
) -> (r: Vec<Assignment>)
    ensures
        assignment_views(r@) == resolve_spec(
            save_state_views(saves@),
            state_def_views(defs@),
            table@,
        ),
{
    let ghost sv = save_state_views(saves@);
    let ghost dv = state_def_views(defs@);
    let mut out: Vec<Assignment> = Vec::new();
    let mut i: usize = 0;
    proof {
        assert(sv.subrange(0, sv.len() as int) =~= sv);
        assert(assignment_views(out@) + resolve_spec(sv, dv, table@)
            =~= resolve_spec(sv, dv, table@));
    }
    while i < saves.len()
        invariant
            0 <= i <= saves@.len(),
            sv.len() == saves@.len(),
            resolve_spec(sv, dv, table@) == assignment_views(out@)
                + resolve_spec(sv.subrange(i as int, sv.len() as int), dv, table@),
        decreases saves@.len() - i,
    {
        let ghost rest = sv.subrange(i as int, sv.len() as int);
        proof {
            assert(rest[0] == sv[i as int]);
            assert(sv[i as int] == saves@[i as int]@);
            assert(rest.drop_first() =~= sv.subrange(i as int + 1, sv.len() as int));
        }
        let color = match table.lookup(&saves[i].owner) {
            Some(c) => c,
            None => Rgba::transparent(),
        };
        match find_state(defs, saves[i].id) {
            Some(k) => {
                let a = Assignment { province_ids: clone_ids(&defs[k].provinces), color };
                proof {
                    assert(a@ == (defs@[k as int].provinces@, color));
                    assert(assignment_views(out@.push(a))
                        =~= assignment_views(out@) + seq![a@]);
                    assert(assignment_views(out@) + seq![a@] + resolve_spec(
                        rest.drop_first(),
                        dv,
                        table@,
                    ) =~= resolve_spec(sv, dv, table@));
                }
                out.push(a);
            },
            None => {},
        }
        i += 1;
    }
    proof {
        assert(sv.subrange(i as int, sv.len() as int) =~= Seq::<(i64, Seq<u8>)>::empty());
        assert(assignment_views(out@) =~= resolve_spec(sv, dv, table@));
    }
    out
}

} // verus!
