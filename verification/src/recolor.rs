use vstd::prelude::*;

verus! {

use crate::color::Rgba;
use crate::registry::{registry_wf, Province};

/// One resolved pairing out of the ownership resolver: the provinces of one
/// state, and the display color every pixel of those provinces gets.
pub struct Assignment {
    pub province_ids: Vec<i64>,
    pub color: Rgba,
}

impl View for Assignment {
    type V = (Seq<i64>, Rgba);

    open spec fn view(&self) -> (Seq<i64>, Rgba) {
        (self.province_ids@, self.color)
    }
}

pub open spec fn assignment_views(s: Seq<Assignment>) -> Seq<(Seq<i64>, Rgba)> {
    s.map_values(|a: Assignment| a@)
}

/// An assignment referenced a province id the registry does not hold: a
/// fatal map/save mismatch.
#[derive(Clone, Copy, PartialEq, Eq, Structural, Debug)]
pub enum RecolorError {
    UnknownProvinceId { id: i64 },
}

/// First (file-order) registry entry with the given id, as the engine looks
/// provinces up.
pub open spec fn find_province_spec(reg: Seq<Province>, id: i64) -> Option<Province>
    decreases reg.len(),
{
    if reg.len() == 0 {
        None
    } else if reg[0].id == id {
        Some(reg[0])
    } else {
        find_province_spec(reg.drop_first(), id)
    }
}

/// One scan: every pixel equal to `m` becomes `t`; all others keep their
/// value. Exact four-channel equality, no tolerance.
pub open spec fn apply_pass(buf: Seq<Rgba>, m: Rgba, t: Rgba) -> Seq<Rgba> {
    buf.map_values(|p: Rgba| if p == m { t } else { p })
}

/// The scans of one assignment, one per listed province id, in list order.
/// An id absent from the registry contributes no scan here; the engine
/// rejects such input before scanning.
pub open spec fn apply_ids(buf: Seq<Rgba>, reg: Seq<Province>, ids: Seq<i64>, t: Rgba) -> Seq<Rgba>
    decreases ids.len(),
{
    if ids.len() == 0 {
        buf
    } else {
        let b1 = match find_province_spec(reg, ids[0]) {
            Some(p) => apply_pass(buf, p.color, t),
            None => buf,
        };
        apply_ids(b1, reg, ids.drop_first(), t)
    }
}

/// All assignments applied in order.
pub open spec fn apply_assignments(
    buf: Seq<Rgba>,
    reg: Seq<Province>,
    asgs: Seq<(Seq<i64>, Rgba)>,
) -> Seq<Rgba>
    decreases asgs.len(),
{
    if asgs.len() == 0 {
        buf
    } else {
        apply_assignments(apply_ids(buf, reg, asgs[0].0, asgs[0].1), reg, asgs.drop_first())
    }
}

/// The sea-mask pass: for every non-land province, in registry order, every
/// pixel equal to its color is cleared to full transparency.
pub open spec fn mask_spec(buf: Seq<Rgba>, reg: Seq<Province>) -> Seq<Rgba>
    decreases reg.len(),
{
    if reg.len() == 0 {
        buf
    } else {
        let b1 = if !reg[0].is_land {
            apply_pass(buf, reg[0].color, Rgba::transparent_spec())
        } else {
            buf
        };
        mask_spec(b1, reg.drop_first())
    }
}

/// The first id of one assignment that the registry does not know.
pub open spec fn first_missing_in_ids(reg: Seq<Province>, ids: Seq<i64>) -> Option<i64>
    decreases ids.len(),
{
    if ids.len() == 0 {
        None
    } else if find_province_spec(reg, ids[0]) is None {
        Some(ids[0])
    } else {
        first_missing_in_ids(reg, ids.drop_first())
    }
}

/// The first referenced id, in processing order, that the registry does not
/// know; `None` when every reference resolves.
pub open spec fn first_missing(reg: Seq<Province>, asgs: Seq<(Seq<i64>, Rgba)>) -> Option<i64>
    decreases asgs.len(),
{
    if asgs.len() == 0 {
        None
    } else {
        match first_missing_in_ids(reg, asgs[0].0) {
            Some(id) => Some(id),
            None => first_missing(reg, asgs.drop_first()),
        }
    }
}

pub fn find_province(registry: &Vec<Province>, id: i64) -> (r: Option<Province>)
    ensures
        r == find_province_spec(registry@, id),
{
    let mut i: usize = 0;
    proof {
        assert(registry@.subrange(0, registry@.len() as int) =~= registry@);
    }
    #[verifier::loop_isolation(false)]
    while i < registry.len()
        invariant
            0 <= i <= registry@.len(),
            find_province_spec(registry@.subrange(i as int, registry@.len() as int), id)
                == find_province_spec(registry@, id),
        decreases registry@.len() - i,
    {
        let ghost rest = registry@.subrange(i as int, registry@.len() as int);
        proof {
            assert(rest[0] == registry@[i as int]);
            assert(rest.drop_first() =~= registry@.subrange(i as int + 1, registry@.len() as int));
        }
        if registry[i].id == id {
            return Some(registry[i]);
        }
        i += 1;
    }
    proof {
        assert(registry@.subrange(i as int, registry@.len() as int) =~= Seq::<Province>::empty());
    }
    None
}

/// One in-place scan: rewrites every pixel equal to `m` with `t`.
#[verifier::loop_isolation(false)]
pub fn recolor_pass(buffer: &mut Vec<Rgba>, m: Rgba, t: Rgba)
    ensures
        final(buffer)@ == apply_pass(old(buffer)@, m, t),
{
    let ghost b0 = buffer@;
    let mut i: usize = 0;
    while i < buffer.len()
        invariant
            0 <= i <= b0.len(),
            buffer@.len() == b0.len(),
            forall|j: int| 0 <= j < i ==> buffer@[j] == apply_pass(b0, m, t)[j],
            forall|j: int| i <= j < b0.len() ==> buffer@[j] == b0[j],
        decreases b0.len() - i,
    {
        if buffer[i] == m {
            buffer[i] = t;
        }
        i += 1;
    }
    proof {
        assert(buffer@ =~= apply_pass(b0, m, t));
    }
}

/// The recolor engine. For each assignment, for each listed province id,
/// overwrites every pixel equal to that province's registered color with the
/// assignment's resolved color. An id absent from the registry is fatal and
/// leaves the buffer untouched.
#[verifier::loop_isolation(false)]
pub fn recolor(
    buffer: &mut Vec<Rgba>,
    registry: &Vec<Province>,
    assignments: &Vec<Assignment>,
) -> (r: Result<(), RecolorError>)
    ensures
        match r {
            Ok(_) => first_missing(registry@, assignment_views(assignments@)) is None
                && final(buffer)@ == apply_assignments(
                old(buffer)@,
                registry@,
                assignment_views(assignments@),
            ),
            Err(e) => e matches RecolorError::UnknownProvinceId { id }
                && first_missing(registry@, assignment_views(assignments@)) == Some(id)
                && final(buffer)@ == old(buffer)@,
        },
{
    let ghost m = assignment_views(assignments@);
    // First resolve every reference, so that a bad id leaves the buffer
    // untouched.
    let mut j: usize = 0;
    proof {
        assert(m.subrange(0, m.len() as int) =~= m);
    }
    while j < assignments.len()
        invariant
            0 <= j <= assignments@.len(),
            first_missing(registry@, m.subrange(j as int, m.len() as int))
                == first_missing(registry@, m),
            buffer@ == old(buffer)@,
        decreases assignments@.len() - j,
    {
        let ghost rest = m.subrange(j as int, m.len() as int);
        proof {
            assert(rest[0] == m[j as int]);
            assert(m[j as int] == assignments@[j as int]@);
            assert(rest.drop_first() =~= m.subrange(j as int + 1, m.len() as int));
        }
        let ids = &assignments[j].province_ids;
        let mut k: usize = 0;
        proof {
            assert(ids@.subrange(0, ids@.len() as int) =~= ids@);
        }
        while k < ids.len()
            invariant
                0 <= k <= ids@.len(),
                ids@ == m[j as int].0,
                j < assignments@.len(),
                first_missing(registry@, m.subrange(j as int, m.len() as int))
                    == first_missing(registry@, m),
                m.subrange(j as int, m.len() as int).len() > 0,
                m.subrange(j as int, m.len() as int)[0] == m[j as int],
                m.subrange(j as int, m.len() as int).drop_first()
                    =~= m.subrange(j as int + 1, m.len() as int),
                first_missing_in_ids(registry@, ids@.subrange(k as int, ids@.len() as int))
                    == first_missing_in_ids(registry@, ids@),
                buffer@ == old(buffer)@,
            decreases ids@.len() - k,
        {
            let ghost irest = ids@.subrange(k as int, ids@.len() as int);
            proof {
                assert(irest[0] == ids@[k as int]);
                assert(irest.drop_first() =~= ids@.subrange(k as int + 1, ids@.len() as int));
            }
            let id = ids[k];
            match find_province(registry, id) {
                Some(_) => {},
                None => {
                    proof {
                        assert(first_missing_in_ids(registry@, irest) == Some(id));
                        assert(first_missing(registry@, m.subrange(j as int, m.len() as int))
                            == Some(id));
                    }
                    return Err(RecolorError::UnknownProvinceId { id });
                },
            }
            k += 1;
        }
        proof {
            assert(ids@.subrange(k as int, ids@.len() as int) =~= Seq::<i64>::empty());
            assert(first_missing_in_ids(registry@, ids@) is None);
        }
        j += 1;
    }
    proof {
        assert(m.subrange(j as int, m.len() as int) =~= Seq::<(Seq<i64>, Rgba)>::empty());
        assert(first_missing(registry@, m) is None);
    }
    // Every reference resolves; now scan.
    let ghost b0 = buffer@;
    let mut j: usize = 0;
    proof {
        assert(m.subrange(0, m.len() as int) =~= m);
    }
    while j < assignments.len()
        invariant
            0 <= j <= assignments@.len(),
            apply_assignments(buffer@, registry@, m.subrange(j as int, m.len() as int))
                == apply_assignments(b0, registry@, m),
        decreases assignments@.len() - j,
    {
        let ghost rest = m.subrange(j as int, m.len() as int);
        proof {
            assert(rest[0] == m[j as int]);
            assert(m[j as int] == assignments@[j as int]@);
            assert(rest.drop_first() =~= m.subrange(j as int + 1, m.len() as int));
        }
        let target = assignments[j].color;
        let ghost bj = buffer@;
        let n_ids = assignments[j].province_ids.len();
        let mut k: usize = 0;
        proof {
            let ids = assignments@[j as int].province_ids@;
            assert(ids.subrange(0, ids.len() as int) =~= ids);
        }
        while k < n_ids
            invariant
                0 <= k <= assignments@[j as int].province_ids@.len(),
                j < assignments@.len(),
                n_ids == assignments@[j as int].province_ids@.len(),
                target == m[j as int].1,
                apply_ids(
                    buffer@,
                    registry@,
                    assignments@[j as int].province_ids@.subrange(
                        k as int,
                        assignments@[j as int].province_ids@.len() as int,
                    ),
                    target,
                ) == apply_ids(bj, registry@, assignments@[j as int].province_ids@, target),
            decreases n_ids - k,
        {
            let ghost ids = assignments@[j as int].province_ids@;
            let ghost irest = ids.subrange(k as int, ids.len() as int);
            proof {
                assert(irest[0] == ids[k as int]);
                assert(irest.drop_first() =~= ids.subrange(k as int + 1, ids.len() as int));
            }
            let id = assignments[j].province_ids[k];
            match find_province(registry, id) {
                Some(p) => {
                    recolor_pass(buffer, p.color, target);
                },
                None => {},
            }
            k += 1;
        }
        proof {
            let ids = assignments@[j as int].province_ids@;
            assert(ids.subrange(k as int, ids.len() as int) =~= Seq::<i64>::empty());
            assert(buffer@ == apply_ids(bj, registry@, ids, target));
            assert(ids == m[j as int].0);
            assert(apply_assignments(bj, registry@, rest)
                == apply_assignments(buffer@, registry@, m.subrange(j as int + 1, m.len() as int)));
        }
        j += 1;
    }
    proof {
        assert(m.subrange(j as int, m.len() as int) =~= Seq::<(Seq<i64>, Rgba)>::empty());
    }
    Ok(())
}

/// The sea-mask pass: clears every pixel matching a non-land province's
/// color to full transparency. Runs after the recolor engine; the masking
/// overrides whatever the engine wrote.
#[verifier::loop_isolation(false)]
pub fn mask_seas(buffer: &mut Vec<Rgba>, registry: &Vec<Province>)
    ensures
        final(buffer)@ == mask_spec(old(buffer)@, registry@),
{
    let ghost b0 = buffer@;
    let mut j: usize = 0;
    proof {
        assert(registry@.subrange(0, registry@.len() as int) =~= registry@);
    }
    while j < registry.len()
        invariant
            0 <= j <= registry@.len(),
            mask_spec(buffer@, registry@.subrange(j as int, registry@.len() as int))
                == mask_spec(b0, registry@),
        decreases registry@.len() - j,
    {
        let ghost rest = registry@.subrange(j as int, registry@.len() as int);
        proof {
            assert(rest[0] == registry@[j as int]);
            assert(rest.drop_first() =~= registry@.subrange(j as int + 1, registry@.len() as int));
        }
        if !registry[j].is_land {
            let color = registry[j].color;
            recolor_pass(buffer, color, Rgba::transparent());
        }
        j += 1;
    }
    proof {
        assert(registry@.subrange(j as int, registry@.len() as int) =~= Seq::<Province>::empty());
    }
}

/// The two pixel phases in their required order: recolor, then sea-mask.
/// On an unknown province id the buffer is left untouched.
pub fn recolor_and_mask(
    buffer: &mut Vec<Rgba>,
    registry: &Vec<Province>,
    assignments: &Vec<Assignment>,
) -> (r: Result<(), RecolorError>)
    ensures
        match r {
            Ok(_) => first_missing(registry@, assignment_views(assignments@)) is None
                && final(buffer)@ == mask_spec(
                apply_assignments(old(buffer)@, registry@, assignment_views(assignments@)),
                registry@,
            ),
            Err(e) => e matches RecolorError::UnknownProvinceId { id }
                && first_missing(registry@, assignment_views(assignments@)) == Some(id)
                && final(buffer)@ == old(buffer)@,
        },
{
    match recolor(buffer, registry, assignments) {
        Ok(_) => {},
        Err(e) => { return Err(e); },
    }
    mask_seas(buffer, registry);
    Ok(())
}

// ---------------------------------------------------------------------------
// Properties of the two passes
// ---------------------------------------------------------------------------

/// Whether `id` resolves in the registry to a province of color `v`.
pub open spec fn hit_color(reg: Seq<Province>, id: i64, v: Rgba) -> bool {
    match find_province_spec(reg, id) {
        Some(p) => p.color == v,
        None => false,
    }
}

/// Whether some id in `ids` resolves to a province of color `v`: exactly the
/// pixels of color `v` are touched by the scans of such an id list.
pub open spec fn ids_hit(reg: Seq<Province>, ids: Seq<i64>, v: Rgba) -> bool {
    exists|k: int| 0 <= k < ids.len() && hit_color(reg, #[trigger] ids[k], v)
}

/// The target of the first assignment, in processing order, whose provinces
/// cover color `v`.
pub open spec fn assignment_lookup(
    reg: Seq<Province>,
    asgs: Seq<(Seq<i64>, Rgba)>,
    v: Rgba,
) -> Option<Rgba>
    decreases asgs.len(),
{
    if asgs.len() == 0 {
        None
    } else if ids_hit(reg, asgs[0].0, v) {
        Some(asgs[0].1)
    } else {
        assignment_lookup(reg, asgs.drop_first(), v)
    }
}

/// No assignment writes a color that some assignment's provinces carry in
/// the registry: a repainted pixel is never repainted again.
pub open spec fn targets_fresh(reg: Seq<Province>, asgs: Seq<(Seq<i64>, Rgba)>) -> bool {
    forall|a1: (Seq<i64>, Rgba), a2: (Seq<i64>, Rgba)|
        #[trigger] asgs.contains(a1) && #[trigger] asgs.contains(a2) ==> !ids_hit(reg, a2.0, a1.1)
}

/// Any two assignments covering the same province color agree on the target:
/// what a pixel of that color becomes does not depend on which of them runs.
pub open spec fn consistent_targets(reg: Seq<Province>, asgs: Seq<(Seq<i64>, Rgba)>) -> bool {
    forall|a1: (Seq<i64>, Rgba), a2: (Seq<i64>, Rgba), v: Rgba|
        #![trigger asgs.contains(a1), asgs.contains(a2), ids_hit(reg, a1.0, v)]
        asgs.contains(a1) && asgs.contains(a2) && ids_hit(reg, a1.0, v) && ids_hit(reg, a2.0, v)
            ==> a1.1 == a2.1
}

pub proof fn lemma_apply_ids_len(buf: Seq<Rgba>, reg: Seq<Province>, ids: Seq<i64>, t: Rgba)
    ensures
        apply_ids(buf, reg, ids, t).len() == buf.len(),
    decreases ids.len(),
{
    if ids.len() > 0 {
        let b1 = match find_province_spec(reg, ids[0]) {
            Some(p) => apply_pass(buf, p.color, t),
            None => buf,
        };
        lemma_apply_ids_len(b1, reg, ids.drop_first(), t);
    }
}

pub proof fn lemma_apply_assignments_len(
    buf: Seq<Rgba>,
    reg: Seq<Province>,
    asgs: Seq<(Seq<i64>, Rgba)>,
)
    ensures
        apply_assignments(buf, reg, asgs).len() == buf.len(),
    decreases asgs.len(),
{
    if asgs.len() > 0 {
        lemma_apply_ids_len(buf, reg, asgs[0].0, asgs[0].1);
        lemma_apply_assignments_len(
            apply_ids(buf, reg, asgs[0].0, asgs[0].1),
            reg,
            asgs.drop_first(),
        );
    }
}

pub proof fn lemma_mask_len(buf: Seq<Rgba>, reg: Seq<Province>)
    ensures
        mask_spec(buf, reg).len() == buf.len(),
    decreases reg.len(),
{
    if reg.len() > 0 {
        let b1 = if !reg[0].is_land {
            apply_pass(buf, reg[0].color, Rgba::transparent_spec())
        } else {
            buf
        };
        lemma_mask_len(b1, reg.drop_first());
    }
}

/// A found province is a member of the registry.
pub proof fn lemma_find_province_member(reg: Seq<Province>, id: i64)
    ensures
        find_province_spec(reg, id) matches Some(p) ==> reg.contains(p),
    decreases reg.len(),
{
    if reg.len() > 0 {
        if reg[0].id == id {
            assert(reg.contains(reg[0]));
        } else {
            lemma_find_province_member(reg.drop_first(), id);
            if let Some(p) = find_province_spec(reg.drop_first(), id) {
                let k = choose|k: int|
                    0 <= k < reg.drop_first().len() && reg.drop_first()[k] == p;
                assert(reg[k + 1] == p);
            }
        }
    }
}

pub proof fn lemma_ids_hit_unfold(reg: Seq<Province>, ids: Seq<i64>, v: Rgba)
    requires
        ids.len() > 0,
    ensures
        ids_hit(reg, ids, v) == (hit_color(reg, ids[0], v) || ids_hit(reg, ids.drop_first(), v)),
{
    if hit_color(reg, ids[0], v) {
        assert(ids_hit(reg, ids, v));
    }
    if ids_hit(reg, ids.drop_first(), v) {
        let k = choose|k: int|
            0 <= k < ids.drop_first().len() && hit_color(reg, ids.drop_first()[k], v);
        assert(ids[k + 1] == ids.drop_first()[k]);
        assert(hit_color(reg, ids[k + 1], v));
    }
    if ids_hit(reg, ids, v) && !hit_color(reg, ids[0], v) {
        let k = choose|k: int| 0 <= k < ids.len() && hit_color(reg, ids[k], v);
        assert(k != 0);
        assert(ids.drop_first()[k - 1] == ids[k]);
        assert(hit_color(reg, ids.drop_first()[k - 1], v));
        assert(ids_hit(reg, ids.drop_first(), v));
    }
}

/// The scans of an id list leave a pixel alone when no listed province
/// carries its color.
pub proof fn lemma_apply_ids_misses(
    buf: Seq<Rgba>,
    reg: Seq<Province>,
    ids: Seq<i64>,
    t: Rgba,
    i: int,
)
    requires
        0 <= i < buf.len(),
        !ids_hit(reg, ids, buf[i]),
    ensures
        apply_ids(buf, reg, ids, t).len() == buf.len(),
        apply_ids(buf, reg, ids, t)[i] == buf[i],
    decreases ids.len(),
{
    lemma_apply_ids_len(buf, reg, ids, t);
    if ids.len() > 0 {
        lemma_ids_hit_unfold(reg, ids, buf[i]);
        let b1 = match find_province_spec(reg, ids[0]) {
            Some(p) => apply_pass(buf, p.color, t),
            None => buf,
        };
        assert(b1[i] == buf[i]);
        lemma_apply_ids_misses(b1, reg, ids.drop_first(), t, i);
    }
}

pub proof fn lemma_asg_tail_contains(asgs: Seq<(Seq<i64>, Rgba)>, a: (Seq<i64>, Rgba))
    requires
        asgs.len() > 0,
        asgs.drop_first().contains(a),
    ensures
        asgs.contains(a),
{
    let k = choose|k: int| 0 <= k < asgs.drop_first().len() && asgs.drop_first()[k] == a;
    assert(asgs[k + 1] == a);
}

/// The whole recolor phase leaves a pixel alone when no assignment's
/// provinces carry its color.
pub proof fn lemma_apply_assignments_misses(
    buf: Seq<Rgba>,
    reg: Seq<Province>,
    asgs: Seq<(Seq<i64>, Rgba)>,
    i: int,
)
    requires
        0 <= i < buf.len(),
        forall|a: (Seq<i64>, Rgba)| #[trigger] asgs.contains(a) ==> !ids_hit(reg, a.0, buf[i]),
    ensures
        apply_assignments(buf, reg, asgs).len() == buf.len(),
        apply_assignments(buf, reg, asgs)[i] == buf[i],
    decreases asgs.len(),
{
    lemma_apply_assignments_len(buf, reg, asgs);
    if asgs.len() > 0 {
        let a0 = asgs[0];
        assert(asgs.contains(a0));
        lemma_apply_ids_misses(buf, reg, a0.0, a0.1, i);
        let b1 = apply_ids(buf, reg, a0.0, a0.1);
        assert forall|a: (Seq<i64>, Rgba)| #[trigger] asgs.drop_first().contains(a)
            implies !ids_hit(reg, a.0, b1[i]) by {
            lemma_asg_tail_contains(asgs, a);
        }
        lemma_apply_assignments_misses(b1, reg, asgs.drop_first(), i);
    }
}

/// Pointwise account of one assignment's scans: a pixel covered by the id
/// list becomes the target, any other pixel is untouched — provided the
/// target itself is not a covered color.
pub proof fn lemma_apply_ids_pointwise(
    buf: Seq<Rgba>,
    reg: Seq<Province>,
    ids: Seq<i64>,
    t: Rgba,
    i: int,
)
    requires
        0 <= i < buf.len(),
        !ids_hit(reg, ids, t),
    ensures
        apply_ids(buf, reg, ids, t).len() == buf.len(),
        apply_ids(buf, reg, ids, t)[i] == if ids_hit(reg, ids, buf[i]) {
            t
        } else {
            buf[i]
        },
    decreases ids.len(),
{
    lemma_apply_ids_len(buf, reg, ids, t);
    if ids.len() > 0 {
        lemma_ids_hit_unfold(reg, ids, buf[i]);
        lemma_ids_hit_unfold(reg, ids, t);
        let b1 = match find_province_spec(reg, ids[0]) {
            Some(p) => apply_pass(buf, p.color, t),
            None => buf,
        };
        if hit_color(reg, ids[0], buf[i]) {
            assert(b1[i] == t);
            lemma_apply_ids_misses(b1, reg, ids.drop_first(), t, i);
        } else {
            assert(b1[i] == buf[i]);
            lemma_apply_ids_pointwise(b1, reg, ids.drop_first(), t, i);
        }
    }
}

/// Pointwise account of the whole recolor phase, under `targets_fresh`: each
/// pixel ends at the target of the first assignment covering its color, or
/// keeps its value when none does.
pub proof fn lemma_recolor_pointwise(
    buf: Seq<Rgba>,
    reg: Seq<Province>,
    asgs: Seq<(Seq<i64>, Rgba)>,
    i: int,
)
    requires
        0 <= i < buf.len(),
        targets_fresh(reg, asgs),
    ensures
        apply_assignments(buf, reg, asgs).len() == buf.len(),
        apply_assignments(buf, reg, asgs)[i] == match assignment_lookup(reg, asgs, buf[i]) {
            Some(t) => t,
            None => buf[i],
        },
    decreases asgs.len(),
{
    lemma_apply_assignments_len(buf, reg, asgs);
    if asgs.len() > 0 {
        let a0 = asgs[0];
        assert(asgs.contains(a0));
        assert(!ids_hit(reg, a0.0, a0.1));
        lemma_apply_ids_pointwise(buf, reg, a0.0, a0.1, i);
        let b1 = apply_ids(buf, reg, a0.0, a0.1);
        let tail = asgs.drop_first();
        assert forall|a1: (Seq<i64>, Rgba), a2: (Seq<i64>, Rgba)|
            #[trigger] tail.contains(a1) && #[trigger] tail.contains(a2)
            implies !ids_hit(reg, a2.0, a1.1) by {
            lemma_asg_tail_contains(asgs, a1);
            lemma_asg_tail_contains(asgs, a2);
        }
        if ids_hit(reg, a0.0, buf[i]) {
            assert(b1[i] == a0.1);
            assert forall|a: (Seq<i64>, Rgba)| #[trigger] tail.contains(a)
                implies !ids_hit(reg, a.0, b1[i]) by {
                lemma_asg_tail_contains(asgs, a);
            }
            lemma_apply_assignments_misses(b1, reg, tail, i);
        } else {
            assert(b1[i] == buf[i]);
            lemma_recolor_pointwise(b1, reg, tail, i);
        }
    }
}

pub proof fn lemma_lookup_characterize(reg: Seq<Province>, asgs: Seq<(Seq<i64>, Rgba)>, v: Rgba)
    ensures
        match assignment_lookup(reg, asgs, v) {
            Some(t) => exists|a: (Seq<i64>, Rgba)|
                #[trigger] asgs.contains(a) && ids_hit(reg, a.0, v) && a.1 == t,
            None => forall|a: (Seq<i64>, Rgba)| #[trigger] asgs.contains(a)
                ==> !ids_hit(reg, a.0, v),
        },
    decreases asgs.len(),
{
    if asgs.len() > 0 {
        let a0 = asgs[0];
        if ids_hit(reg, a0.0, v) {
            assert(asgs.contains(a0));
        } else {
            lemma_lookup_characterize(reg, asgs.drop_first(), v);
            match assignment_lookup(reg, asgs.drop_first(), v) {
                Some(t) => {
                    let a = choose|a: (Seq<i64>, Rgba)|
                        #[trigger] asgs.drop_first().contains(a) && ids_hit(reg, a.0, v)
                            && a.1 == t;
                    lemma_asg_tail_contains(asgs, a);
                },
                None => {
                    assert forall|a: (Seq<i64>, Rgba)| #[trigger] asgs.contains(a)
                        implies !ids_hit(reg, a.0, v) by {
                        let k = choose|k: int| 0 <= k < asgs.len() && asgs[k] == a;
                        if k > 0 {
                            assert(asgs.drop_first()[k - 1] == a);
                            assert(asgs.drop_first().contains(a));
                        }
                    }
                },
            }
        }
    }
}

pub proof fn lemma_lookup_finds(
    reg: Seq<Province>,
    asgs: Seq<(Seq<i64>, Rgba)>,
    v: Rgba,
    a: (Seq<i64>, Rgba),
)
    requires
        asgs.contains(a),
        ids_hit(reg, a.0, v),
    ensures
        assignment_lookup(reg, asgs, v) is Some,
    decreases asgs.len(),
{
    if !ids_hit(reg, asgs[0].0, v) {
        let k = choose|k: int| 0 <= k < asgs.len() && asgs[k] == a;
        assert(k != 0);
        assert(asgs.drop_first()[k - 1] == a);
        assert(asgs.drop_first().contains(a));
        lemma_lookup_finds(reg, asgs.drop_first(), v, a);
    }
}

/// Membership transfers between sequences holding the same multiset.
pub proof fn lemma_multiset_contains_transfer(
    s1: Seq<(Seq<i64>, Rgba)>,
    s2: Seq<(Seq<i64>, Rgba)>,
    a: (Seq<i64>, Rgba),
)
    requires
        s1.to_multiset() == s2.to_multiset(),
        s1.contains(a),
    ensures
        s2.contains(a),
{
    s1.to_multiset_ensures();
    s2.to_multiset_ensures();
    assert(s1.to_multiset().count(a) > 0);
}

/// Under `consistent_targets`, the lookup result depends only on which
/// assignments are present, not on their order.
pub proof fn lemma_lookup_permuted(
    reg: Seq<Province>,
    asgs1: Seq<(Seq<i64>, Rgba)>,
    asgs2: Seq<(Seq<i64>, Rgba)>,
    v: Rgba,
)
    requires
        asgs1.to_multiset() == asgs2.to_multiset(),
        consistent_targets(reg, asgs1),
    ensures
        assignment_lookup(reg, asgs1, v) == assignment_lookup(reg, asgs2, v),
{
    lemma_lookup_characterize(reg, asgs1, v);
    lemma_lookup_characterize(reg, asgs2, v);
    match assignment_lookup(reg, asgs1, v) {
        Some(t1) => {
            let a1 = choose|a: (Seq<i64>, Rgba)|
                #[trigger] asgs1.contains(a) && ids_hit(reg, a.0, v) && a.1 == t1;
            lemma_multiset_contains_transfer(asgs1, asgs2, a1);
            lemma_lookup_finds(reg, asgs2, v, a1);
            match assignment_lookup(reg, asgs2, v) {
                Some(t2) => {
                    let a2 = choose|a: (Seq<i64>, Rgba)|
                        #[trigger] asgs2.contains(a) && ids_hit(reg, a.0, v) && a.1 == t2;
                    lemma_multiset_contains_transfer(asgs2, asgs1, a2);
                    assert(a1.1 == a2.1);
                },
                None => {},
            }
        },
        None => {
            match assignment_lookup(reg, asgs2, v) {
                Some(t2) => {
                    let a2 = choose|a: (Seq<i64>, Rgba)|
                        #[trigger] asgs2.contains(a) && ids_hit(reg, a.0, v) && a.1 == t2;
                    lemma_multiset_contains_transfer(asgs2, asgs1, a2);
                },
                None => {},
            }
        },
    }
}

/// Order independence of recoloring: processing the same assignments in any
/// permutation yields the same final buffer, provided no assignment's target
/// is itself a covered province color and assignments covering a common
/// color agree on its target.
pub proof fn lemma_recolor_order_independent(
    buf: Seq<Rgba>,
    reg: Seq<Province>,
    asgs1: Seq<(Seq<i64>, Rgba)>,
    asgs2: Seq<(Seq<i64>, Rgba)>,
)
    requires
        asgs1.to_multiset() == asgs2.to_multiset(),
        targets_fresh(reg, asgs1),
        consistent_targets(reg, asgs1),
    ensures
        apply_assignments(buf, reg, asgs1) == apply_assignments(buf, reg, asgs2),
{
    assert forall|a1: (Seq<i64>, Rgba), a2: (Seq<i64>, Rgba)|
        #[trigger] asgs2.contains(a1) && #[trigger] asgs2.contains(a2)
        implies !ids_hit(reg, a2.0, a1.1) by {
        lemma_multiset_contains_transfer(asgs2, asgs1, a1);
        lemma_multiset_contains_transfer(asgs2, asgs1, a2);
    }
    lemma_apply_assignments_len(buf, reg, asgs1);
    lemma_apply_assignments_len(buf, reg, asgs2);
    assert forall|i: int| 0 <= i < buf.len()
        implies apply_assignments(buf, reg, asgs1)[i] == apply_assignments(buf, reg, asgs2)[i] by {
        lemma_recolor_pointwise(buf, reg, asgs1, i);
        lemma_recolor_pointwise(buf, reg, asgs2, i);
        lemma_lookup_permuted(reg, asgs1, asgs2, buf[i]);
    }
    assert(apply_assignments(buf, reg, asgs1) =~= apply_assignments(buf, reg, asgs2));
}

/// The mask leaves a pixel alone when no registered province carries its
/// color.
pub proof fn lemma_mask_misses(buf: Seq<Rgba>, reg: Seq<Province>, i: int)
    requires
        0 <= i < buf.len(),
        forall|k: int| 0 <= k < reg.len() ==> (#[trigger] reg[k]).color != buf[i],
    ensures
        mask_spec(buf, reg).len() == buf.len(),
        mask_spec(buf, reg)[i] == buf[i],
    decreases reg.len(),
{
    lemma_mask_len(buf, reg);
    if reg.len() > 0 {
        let b1 = if !reg[0].is_land {
            apply_pass(buf, reg[0].color, Rgba::transparent_spec())
        } else {
            buf
        };
        assert(b1[i] == buf[i]);
        assert forall|k: int| 0 <= k < reg.drop_first().len()
            implies (#[trigger] reg.drop_first()[k]).color != b1[i] by {
            assert(reg.drop_first()[k] == reg[k + 1]);
        }
        lemma_mask_misses(b1, reg.drop_first(), i);
    }
}

pub proof fn lemma_registry_wf_tail(reg: Seq<Province>)
    requires
        reg.len() > 0,
        registry_wf(reg),
    ensures
        registry_wf(reg.drop_first()),
{
    assert forall|i: int, j: int| 0 <= i < j < reg.drop_first().len()
        implies (#[trigger] reg.drop_first()[i]).color != (#[trigger] reg.drop_first()[j]).color by {
        assert(reg.drop_first()[i] == reg[i + 1]);
        assert(reg.drop_first()[j] == reg[j + 1]);
    }
    assert forall|i: int| 0 <= i < reg.drop_first().len()
        implies (#[trigger] reg.drop_first()[i]).color.a == 255 by {
        assert(reg.drop_first()[i] == reg[i + 1]);
    }
}

/// The mask pass clears a pixel carrying a non-land province's color to full
/// transparency, in a well-formed registry.
pub proof fn lemma_mask_clears_sea_value(buf: Seq<Rgba>, reg: Seq<Province>, i: int)
    requires
        0 <= i < buf.len(),
        registry_wf(reg),
        exists|k: int|
            0 <= k < reg.len() && !(#[trigger] reg[k]).is_land && reg[k].color == buf[i],
    ensures
        mask_spec(buf, reg).len() == buf.len(),
        mask_spec(buf, reg)[i] == Rgba::transparent_spec(),
    decreases reg.len(),
{
    lemma_mask_len(buf, reg);
    let k = choose|k: int|
        0 <= k < reg.len() && !(#[trigger] reg[k]).is_land && reg[k].color == buf[i];
    if !reg[0].is_land && reg[0].color == buf[i] {
        let b1 = apply_pass(buf, reg[0].color, Rgba::transparent_spec());
        assert(b1[i] == Rgba::transparent_spec());
        assert forall|j: int| 0 <= j < reg.drop_first().len()
            implies (#[trigger] reg.drop_first()[j]).color != b1[i] by {
            assert(reg.drop_first()[j] == reg[j + 1]);
            assert(reg[j + 1].color.a == 255);
        }
        lemma_mask_misses(b1, reg.drop_first(), i);
    } else {
        assert(k != 0);
        let b1 = if !reg[0].is_land {
            apply_pass(buf, reg[0].color, Rgba::transparent_spec())
        } else {
            buf
        };
        assert(reg[0].color != reg[k].color);
        assert(b1[i] == buf[i]);
        lemma_registry_wf_tail(reg);
        assert(reg.drop_first()[k - 1] == reg[k]);
        assert(!(reg.drop_first()[k - 1]).is_land && reg.drop_first()[k - 1].color == b1[i]);
        lemma_mask_clears_sea_value(b1, reg.drop_first(), i);
    }
}

/// A pixel whose color matches no registered province is left unchanged by
/// the full recolor-and-mask pass.
pub proof fn lemma_unmatched_pixel_unchanged(
    buf: Seq<Rgba>,
    reg: Seq<Province>,
    asgs: Seq<(Seq<i64>, Rgba)>,
    i: int,
)
    requires
        0 <= i < buf.len(),
        forall|k: int| 0 <= k < reg.len() ==> (#[trigger] reg[k]).color != buf[i],
    ensures
        mask_spec(apply_assignments(buf, reg, asgs), reg).len() == buf.len(),
        mask_spec(apply_assignments(buf, reg, asgs), reg)[i] == buf[i],
{
    assert forall|a: (Seq<i64>, Rgba)| #[trigger] asgs.contains(a)
        implies !ids_hit(reg, a.0, buf[i]) by {
        if ids_hit(reg, a.0, buf[i]) {
            let k = choose|k: int| 0 <= k < a.0.len() && hit_color(reg, #[trigger] a.0[k], buf[i]);
            lemma_find_province_member(reg, a.0[k]);
            if let Some(p) = find_province_spec(reg, a.0[k]) {
                let j = choose|j: int| 0 <= j < reg.len() && reg[j] == p;
                assert(reg[j].color == buf[i]);
            }
        }
    }
    lemma_apply_assignments_misses(buf, reg, asgs, i);
    lemma_mask_misses(apply_assignments(buf, reg, asgs), reg, i);
}

/// Helper for the transparent-sentinel case: under an all-opaque registry,
/// one assignment's scans can only move a pixel between its starting value
/// and full transparency when every scan that covers the starting value
/// writes the transparent sentinel.
pub proof fn lemma_apply_ids_value_in(
    buf: Seq<Rgba>,
    reg: Seq<Province>,
    ids: Seq<i64>,
    t: Rgba,
    i: int,
    v0: Rgba,
)
    requires
        0 <= i < buf.len(),
        forall|k: int| 0 <= k < reg.len() ==> (#[trigger] reg[k]).color.a == 255,
        buf[i] == v0 || buf[i] == Rgba::transparent_spec(),
        ids_hit(reg, ids, v0) ==> t == Rgba::transparent_spec(),
    ensures
        apply_ids(buf, reg, ids, t).len() == buf.len(),
        apply_ids(buf, reg, ids, t)[i] == v0
            || apply_ids(buf, reg, ids, t)[i] == Rgba::transparent_spec(),
    decreases ids.len(),
{
    lemma_apply_ids_len(buf, reg, ids, t);
    if ids.len() > 0 {
        lemma_ids_hit_unfold(reg, ids, v0);
        let b1 = match find_province_spec(reg, ids[0]) {
            Some(p) => apply_pass(buf, p.color, t),
            None => buf,
        };
        if let Some(p) = find_province_spec(reg, ids[0]) {
            lemma_find_province_member(reg, p.id);
            lemma_find_province_member(reg, ids[0]);
            let j = choose|j: int| 0 <= j < reg.len() && reg[j] == p;
            assert(p.color.a == 255);
            if buf[i] == p.color {
                assert(hit_color(reg, ids[0], buf[i]));
            }
        }
        assert(b1[i] == v0 || b1[i] == Rgba::transparent_spec());
        lemma_apply_ids_value_in(b1, reg, ids.drop_first(), t, i, v0);
    }
}

/// As `lemma_apply_ids_value_in`, over the whole recolor phase.
pub proof fn lemma_apply_assignments_value_in(
    buf: Seq<Rgba>,
    reg: Seq<Province>,
    asgs: Seq<(Seq<i64>, Rgba)>,
    i: int,
    v0: Rgba,
)
    requires
        0 <= i < buf.len(),
        forall|k: int| 0 <= k < reg.len() ==> (#[trigger] reg[k]).color.a == 255,
        buf[i] == v0 || buf[i] == Rgba::transparent_spec(),
        forall|a: (Seq<i64>, Rgba)| #[trigger] asgs.contains(a) && ids_hit(reg, a.0, v0)
            ==> a.1 == Rgba::transparent_spec(),
    ensures
        apply_assignments(buf, reg, asgs).len() == buf.len(),
        apply_assignments(buf, reg, asgs)[i] == v0
            || apply_assignments(buf, reg, asgs)[i] == Rgba::transparent_spec(),
    decreases asgs.len(),
{
    lemma_apply_assignments_len(buf, reg, asgs);
    if asgs.len() > 0 {
        let a0 = asgs[0];
        assert(asgs.contains(a0));
        lemma_apply_ids_value_in(buf, reg, a0.0, a0.1, i, v0);
        let b1 = apply_ids(buf, reg, a0.0, a0.1);
        assert forall|a: (Seq<i64>, Rgba)|
            #[trigger] asgs.drop_first().contains(a) && ids_hit(reg, a.0, v0)
            implies a.1 == Rgba::transparent_spec() by {
            lemma_asg_tail_contains(asgs, a);
        }
        lemma_apply_assignments_value_in(b1, reg, asgs.drop_first(), i, v0);
    }
}

/// The transparent-sentinel half of sea-masking: a pixel carrying a
/// non-land province's color ends fully transparent when every assignment
/// covering that color resolves to the transparent sentinel — as the
/// resolver produces for states whose owner has no table color.
pub proof fn lemma_sea_wins_transparent_assignments(
    buf: Seq<Rgba>,
    reg: Seq<Province>,
    asgs: Seq<(Seq<i64>, Rgba)>,
    i: int,
)
    requires
        0 <= i < buf.len(),
        registry_wf(reg),
        exists|k: int|
            0 <= k < reg.len() && !(#[trigger] reg[k]).is_land && reg[k].color == buf[i],
        forall|a: (Seq<i64>, Rgba)| #[trigger] asgs.contains(a) && ids_hit(reg, a.0, buf[i])
            ==> a.1 == Rgba::transparent_spec(),
    ensures
        mask_spec(apply_assignments(buf, reg, asgs), reg).len() == buf.len(),
        mask_spec(apply_assignments(buf, reg, asgs), reg)[i] == Rgba::transparent_spec(),
{
    lemma_apply_assignments_value_in(buf, reg, asgs, i, buf[i]);
    let after = apply_assignments(buf, reg, asgs);
    if after[i] == buf[i] {
        lemma_mask_clears_sea_value(after, reg, i);
    } else {
        assert(after[i] == Rgba::transparent_spec());
        assert forall|k: int| 0 <= k < reg.len()
            implies (#[trigger] reg[k]).color != after[i] by {
            assert(reg[k].color.a == 255);
        }
        lemma_mask_misses(after, reg, i);
    }
}

/// Sea always ends transparent: a pixel carrying a non-land province's
/// color, not repainted by any assignment, is fully transparent after the
/// recolor-and-mask pass.
pub proof fn lemma_sea_wins(
    buf: Seq<Rgba>,
    reg: Seq<Province>,
    asgs: Seq<(Seq<i64>, Rgba)>,
    i: int,
)
    requires
        0 <= i < buf.len(),
        registry_wf(reg),
        exists|k: int|
            0 <= k < reg.len() && !(#[trigger] reg[k]).is_land && reg[k].color == buf[i],
        forall|a: (Seq<i64>, Rgba)| #[trigger] asgs.contains(a) ==> !ids_hit(reg, a.0, buf[i]),
    ensures
        mask_spec(apply_assignments(buf, reg, asgs), reg).len() == buf.len(),
        mask_spec(apply_assignments(buf, reg, asgs), reg)[i] == Rgba::transparent_spec(),
{
    lemma_apply_assignments_misses(buf, reg, asgs, i);
    let after = apply_assignments(buf, reg, asgs);
    assert(after[i] == buf[i]);
    let k = choose|k: int|
        0 <= k < reg.len() && !(#[trigger] reg[k]).is_land && reg[k].color == buf[i];
    assert(!reg[k].is_land && reg[k].color == after[i]);
    lemma_mask_clears_sea_value(after, reg, i);
}

} // verus!
