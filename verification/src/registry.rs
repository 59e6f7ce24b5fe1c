use vstd::prelude::*;

verus! {

use crate::bytes::{
    is_i64_numeral, is_u8_numeral, i64_numeral_value, numeral_value, parse_i64, parse_u8,
    split_bytes, split_on, views_of,
};
use crate::color::Rgba;

/// One indivisible paintable map region: a row of the definition table.
/// `color` is the join key against raw pixels; its alpha is always 255 once
/// loaded. Provinces without the `land` type are sea and are cleared by the
/// sea-mask pass.
#[derive(Clone, Copy, PartialEq, Eq, Structural, Debug)]
pub struct Province {
    pub id: i64,
    pub color: Rgba,
    pub is_land: bool,
}

/// A definition line failed to parse; `line` is its index in the input.
#[derive(Clone, Copy, PartialEq, Eq, Structural, Debug)]
pub enum DefError {
    MalformedRecord { line: usize },
}

/// The bytes of the type keyword `land`.
pub open spec fn land_keyword() -> Seq<u8> {
    seq![108u8, 97u8, 110u8, 100u8]
}

/// How one non-empty definition line reads: fields split on `;`, at least
/// five of them, numeric id and color channels, alpha forced to 255, land
/// exactly when the fifth field is `land`.
pub open spec fn parse_line_spec(line: Seq<u8>) -> Option<Province> {
    let fs = split_on(line, 59);
    if fs.len() >= 5 && is_i64_numeral(fs[0]) && is_u8_numeral(fs[1]) && is_u8_numeral(fs[2])
        && is_u8_numeral(fs[3]) {
        Some(
            Province {
                id: i64_numeral_value(fs[0]) as i64,
                color: Rgba {
                    r: numeral_value(fs[1]) as u8,
                    g: numeral_value(fs[2]) as u8,
                    b: numeral_value(fs[3]) as u8,
                    a: 255,
                },
                is_land: fs[4] == land_keyword(),
            },
        )
    } else {
        None
    }
}

/// Parses one definition line. Returns `None` exactly when the line is
/// malformed: fewer than five `;`-separated fields, or a non-numeric id or
/// color channel.
pub fn parse_definition_line(line: &Vec<u8>) -> (r: Option<Province>)
    ensures
        r == parse_line_spec(line@),
{
    let fields = split_bytes(line, 59);
    let ghost fs = split_on(line@, 59);
    proof {
        assert(views_of(fields@).len() == fields@.len());
    }
    if fields.len() < 5 {
        return None;
    }
    proof {
        assert(fields@[0]@ == fs[0]);
        assert(fields@[1]@ == fs[1]);
        assert(fields@[2]@ == fs[2]);
        assert(fields@[3]@ == fs[3]);
        assert(fields@[4]@ == fs[4]);
    }
    let id = match parse_i64(&fields[0]) {
        Some(v) => v,
        None => { return None; },
    };
    let r = match parse_u8(&fields[1]) {
        Some(v) => v,
        None => { return None; },
    };
    let g = match parse_u8(&fields[2]) {
        Some(v) => v,
        None => { return None; },
    };
    let b = match parse_u8(&fields[3]) {
        Some(v) => v,
        None => { return None; },
    };
    let ty = &fields[4];
    let is_land = ty.len() == 4 && ty[0] == 108 && ty[1] == 97 && ty[2] == 110 && ty[3] == 100;
    proof {
        if is_land {
            assert(fs[4] =~= land_keyword());
        } else {
            assert(fs[4] != land_keyword());
        }
    }
    Some(Province { id, color: Rgba { r, g, b, a: 255 }, is_land })
}

/// How a whole definition table reads: lines in order, empty lines skipped,
/// the first malformed line (by index) aborting the load.
pub open spec fn load_spec(lines: Seq<Seq<u8>>) -> Result<Seq<Province>, int>
    decreases lines.len(),
{
    if lines.len() == 0 {
        Ok(Seq::<Province>::empty())
    } else {
        match load_spec(lines.drop_last()) {
            Err(i) => Err(i),
            Ok(ps) => {
                let l = lines.last();
                if l.len() == 0 {
                    Ok(ps)
                } else {
                    match parse_line_spec(l) {
                        Some(p) => Ok(ps.push(p)),
                        None => Err(lines.len() - 1),
                    }
                }
            },
        }
    }
}

pub proof fn lemma_load_err_extends(p: Seq<Seq<u8>>, q: Seq<Seq<u8>>)
    requires
        load_spec(p) is Err,
    ensures
        load_spec(p + q) == load_spec(p),
    decreases q.len(),
{
    if q.len() == 0 {
        assert(p + q =~= p);
    } else {
        assert((p + q).drop_last() =~= p + q.drop_last());
        lemma_load_err_extends(p, q.drop_last());
    }
}

/// Loads the province registry from the lines of a definition table. The
/// order of the result matches file order, duplicates included; `Err`
/// identifies the first malformed line.
#[verifier::loop_isolation(false)]
pub fn load_registry(lines: &Vec<Vec<u8>>) -> (r: Result<Vec<Province>, DefError>)
    ensures
        match r {
            Ok(ps) => load_spec(views_of(lines@)) == Ok::<Seq<Province>, int>(ps@),
            Err(e) => e matches DefError::MalformedRecord { line } && line < lines@.len()
                && load_spec(views_of(lines@)) == Err::<Seq<Province>, int>(line as int),
        },
{
    let ghost vs = views_of(lines@);
    let mut out: Vec<Province> = Vec::new();
    let mut i: usize = 0;
    proof {
        assert(vs.subrange(0, 0) =~= Seq::<Seq<u8>>::empty());
    }
    while i < lines.len()
        invariant
            0 <= i <= lines@.len(),
            load_spec(vs.subrange(0, i as int)) == Ok::<Seq<Province>, int>(out@),
        decreases lines@.len() - i,
    {
        let ghost pre = vs.subrange(0, i as int);
        let ghost cur = vs.subrange(0, i as int + 1);
        proof {
            assert(cur.drop_last() =~= pre);
            assert(cur.last() == lines@[i as int]@);
        }
        let line = &lines[i];
        if line.len() > 0 {
            match parse_definition_line(line) {
                Some(p) => {
                    out.push(p);
                },
                None => {
                    proof {
                        assert(load_spec(cur) == Err::<Seq<Province>, int>(i as int));
                        lemma_load_err_extends(cur, vs.subrange(i as int + 1, vs.len() as int));
                        assert(cur + vs.subrange(i as int + 1, vs.len() as int) =~= vs);
                    }
                    return Err(DefError::MalformedRecord { line: i });
                },
            }
        }
        i += 1;
    }
    proof {
        assert(vs.subrange(0, i as int) =~= vs);
    }
    Ok(out)
}

/// The registry invariant the recoloring passes lean on: no two provinces
/// share a color (the source bitmap uses color as a unique key; a collision
/// would make recoloring ambiguous) and every color is fully opaque.
pub open spec fn registry_wf(reg: Seq<Province>) -> bool {
    &&& forall|i: int, j: int|
        0 <= i < j < reg.len() ==> (#[trigger] reg[i]).color != (#[trigger] reg[j]).color
    &&& forall|i: int| 0 <= i < reg.len() ==> (#[trigger] reg[i]).color.a == 255
}

/// Checks the color-uniqueness half of `registry_wf`; the alpha half holds
/// of every loaded registry by construction.
#[verifier::loop_isolation(false)]
pub fn registry_colors_distinct(reg: &Vec<Province>) -> (r: bool)
    ensures
        r == (forall|i: int, j: int|
            0 <= i < j < reg@.len() ==> (#[trigger] reg@[i]).color != (#[trigger] reg@[j]).color),
{
    let mut i: usize = 0;
    while i < reg.len()
        invariant
            0 <= i <= reg@.len(),
            forall|a: int, b: int|
                0 <= a < b < i ==> (#[trigger] reg@[a]).color != (#[trigger] reg@[b]).color,
        decreases reg@.len() - i,
    {
        let mut j: usize = 0;
        while j < i
            invariant
                0 <= j <= i < reg@.len(),
                forall|a: int, b: int|
                    0 <= a < b < i ==> (#[trigger] reg@[a]).color != (#[trigger] reg@[b]).color,
                forall|a: int| 0 <= a < j ==> (#[trigger] reg@[a]).color != reg@[i as int].color,
            decreases i - j,
        {
            if reg[j].color == reg[i].color {
                return false;
            }
            j += 1;
        }
        i += 1;
    }
    true
}

/// Every province of a loaded registry carries a fully opaque color:
/// the loader writes alpha 255 whatever the source held.
pub proof fn lemma_loaded_alpha_opaque(lines: Seq<Seq<u8>>, ps: Seq<Province>)
    requires
        load_spec(lines) == Ok::<Seq<Province>, int>(ps),
    ensures
        forall|i: int| 0 <= i < ps.len() ==> (#[trigger] ps[i]).color.a == 255,
    decreases lines.len(),
{
    if lines.len() > 0 {
        match load_spec(lines.drop_last()) {
            Ok(ps0) => {
                lemma_loaded_alpha_opaque(lines.drop_last(), ps0);
            },
            Err(_) => {},
        }
    }
}

/// A parsed definition line is land exactly when its fifth field is the
/// keyword `land`; any other type value reads as sea.
pub proof fn lemma_land_flag(line: Seq<u8>, p: Province)
    requires
        parse_line_spec(line) == Some(p),
    ensures
        p.is_land <==> split_on(line, 59)[4] == land_keyword(),
{
}

} // verus!
