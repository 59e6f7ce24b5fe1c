use vstd::prelude::*;

use rand::Rng;

verus! {

use crate::bytes::{
    bytes_eq, clone_bytes, find_byte, find_idx, is_u8_numeral, numeral_value, parse_u8,
    rfind_byte, rfind_idx, split_bytes, split_on, sub_bytes, trim_bytes, trim_spec, views_of,
};
use crate::color::Rgba;

// ---------------------------------------------------------------------------
// The owner-color table
// ---------------------------------------------------------------------------

/// One owning entity: its short tag and its assigned display color.
pub struct OwnerEntry {
    pub tag: Vec<u8>,
    pub color: Rgba,
}

impl View for OwnerEntry {
    type V = (Seq<u8>, Rgba);

    open spec fn view(&self) -> (Seq<u8>, Rgba) {
        (self.tag@, self.color)
    }
}

/// The table mapping owner tags to display colors. Built once before
/// recoloring; the allocator keeps its colors pairwise distinct.
pub struct OwnerColorTable {
    pub entries: Vec<OwnerEntry>,
}

impl View for OwnerColorTable {
    type V = Seq<(Seq<u8>, Rgba)>;

    open spec fn view(&self) -> Seq<(Seq<u8>, Rgba)> {
        self.entries@.map_values(|e: OwnerEntry| e@)
    }
}

pub open spec fn table_has_tag(t: Seq<(Seq<u8>, Rgba)>, tag: Seq<u8>) -> bool {
    exists|i: int| 0 <= i < t.len() && (#[trigger] t[i]).0 == tag
}

pub open spec fn table_has_color(t: Seq<(Seq<u8>, Rgba)>, c: Rgba) -> bool {
    exists|i: int| 0 <= i < t.len() && (#[trigger] t[i]).1 == c
}

/// The table invariant: tags unique, colors pairwise distinct, every color
/// fully opaque.
pub open spec fn owner_table_wf(t: Seq<(Seq<u8>, Rgba)>) -> bool {
    &&& forall|i: int, j: int| 0 <= i < j < t.len() ==> (#[trigger] t[i]).0 != (#[trigger] t[j]).0
    &&& forall|i: int, j: int| 0 <= i < j < t.len() ==> (#[trigger] t[i]).1 != (#[trigger] t[j]).1
    &&& forall|i: int| 0 <= i < t.len() ==> (#[trigger] t[i]).1.a == 255
}

/// The color of the first entry carrying `tag`, if any.
pub open spec fn owner_color_spec(t: Seq<(Seq<u8>, Rgba)>, tag: Seq<u8>) -> Option<Rgba>
    decreases t.len(),
{
    if t.len() == 0 {
        None
    } else if t[0].0 == tag {
        Some(t[0].1)
    } else {
        owner_color_spec(t.drop_first(), tag)
    }
}

/// No two distinct entries of a well-formed table share an RGB triple: the
/// uniqueness the allocator enforces, stated over the visible channels.
pub proof fn lemma_owner_colors_rgb_distinct(t: Seq<(Seq<u8>, Rgba)>, i: int, j: int)
    requires
        owner_table_wf(t),
        0 <= i < t.len(),
        0 <= j < t.len(),
        i != j,
    ensures
        !t[i].1.same_rgb(t[j].1),
{
    assert(t[i].1 != t[j].1);
    assert(t[i].1.a == 255 && t[j].1.a == 255);
}

/// The outcome of inserting one owner into the table.
#[derive(Clone, Copy, PartialEq, Eq, Structural, Debug)]
pub enum InsertResult {
    Added(Rgba),
    DuplicateTag,
    NoFreeColor,
}

/// How many random colors the allocator draws before giving up; with a
/// 16.7M-value color space this bound is never reached in practice.
pub const MAX_COLOR_TRIES: u32 = 4096;

/// Relies on rand's `Rng::gen_range` over `rand::thread_rng()`: with the
/// non-empty range `0..=255` it returns some byte and does not panic.
/// Nothing further is assumed of the result.
#[verifier::external_body]
fn random_byte() -> u8 {
    rand::thread_rng().gen_range(0u8..=255u8)
}

impl OwnerColorTable {
    pub fn new() -> (t: OwnerColorTable)
        ensures
            t@ == Seq::<(Seq<u8>, Rgba)>::empty(),
            owner_table_wf(t@),
    {
        let t = OwnerColorTable { entries: Vec::new() };
        proof {
            assert(t@ =~= Seq::<(Seq<u8>, Rgba)>::empty());
        }
        t
    }

    #[verifier::loop_isolation(false)]
    pub fn contains_tag(&self, tag: &Vec<u8>) -> (r: bool)
        ensures
            r == table_has_tag(self@, tag@),
    {
        let mut i: usize = 0;
        while i < self.entries.len()
            invariant
                0 <= i <= self@.len(),
                self@.len() == self.entries@.len(),
                forall|j: int| 0 <= j < i ==> (#[trigger] self@[j]).0 != tag@,
            decreases self@.len() - i,
        {
            if bytes_eq(&self.entries[i].tag, tag) {
                assert(self@[i as int].0 == tag@);
                return true;
            }
            i += 1;
        }
        false
    }

    #[verifier::loop_isolation(false)]
    pub fn contains_color(&self, c: Rgba) -> (r: bool)
        ensures
            r == table_has_color(self@, c),
    {
        let mut i: usize = 0;
        while i < self.entries.len()
            invariant
                0 <= i <= self@.len(),
                self@.len() == self.entries@.len(),
                forall|j: int| 0 <= j < i ==> (#[trigger] self@[j]).1 != c,
            decreases self@.len() - i,
        {
            if self.entries[i].color == c {
                assert(self@[i as int].1 == c);
                return true;
            }
            i += 1;
        }
        false
    }

    /// First-match lookup of an owner tag's display color.
    #[verifier::loop_isolation(false)]
    pub fn lookup(&self, tag: &Vec<u8>) -> (r: Option<Rgba>)
        ensures
            r == owner_color_spec(self@, tag@),
    {
        let mut i: usize = 0;
        proof {
            assert(self@.subrange(0, self@.len() as int) =~= self@);
        }
        while i < self.entries.len()
            invariant
                0 <= i <= self@.len(),
                self@.len() == self.entries@.len(),
                owner_color_spec(self@.subrange(i as int, self@.len() as int), tag@)
                    == owner_color_spec(self@, tag@),
            decreases self@.len() - i,
        {
            let ghost rest = self@.subrange(i as int, self@.len() as int);
            proof {
                assert(rest[0] == self@[i as int]);
                assert(rest.drop_first() =~= self@.subrange(i as int + 1, self@.len() as int));
            }
            if bytes_eq(&self.entries[i].tag, tag) {
                return Some(self.entries[i].color);
            }
            i += 1;
        }
        proof {
            assert(self@.subrange(i as int, self@.len() as int)
                =~= Seq::<(Seq<u8>, Rgba)>::empty());
        }
        None
    }

    /// The color-uniqueness allocator: returns the candidate RGB (opaque) if
    /// its color is not yet in the table, otherwise draws random RGB triples
    /// until one is free. Whatever comes back is not a color of the table.
    pub fn alloc_unique_color(&self, r: u8, g: u8, b: u8) -> (c: Option<Rgba>)
        ensures
            match c {
                Some(c) => c.a == 255 && !table_has_color(self@, c)
                    && (!table_has_color(self@, Rgba::opaque_spec(r, g, b))
                    ==> c == Rgba::opaque_spec(r, g, b)),
                None => table_has_color(self@, Rgba::opaque_spec(r, g, b)),
            },
    {
        let cand = Rgba::opaque(r, g, b);
        if !self.contains_color(cand) {
            return Some(cand);
        }
        let mut tries: u32 = 0;
        #[verifier::loop_isolation(false)]
        while tries < MAX_COLOR_TRIES
            invariant
                table_has_color(self@, Rgba::opaque_spec(r, g, b)),
            decreases MAX_COLOR_TRIES - tries,
        {
            let c2 = Rgba::opaque(random_byte(), random_byte(), random_byte());
            if !self.contains_color(c2) {
                return Some(c2);
            }
            tries += 1;
        }
        None
    }

    /// Inserts one owner, allocating a unique color for it; keeps the table
    /// invariant. A duplicate tag, or a candidate color that collides while
    /// every random redraw collides too, leaves the table unchanged.
    pub fn insert_owner(&mut self, tag: Vec<u8>, r: u8, g: u8, b: u8) -> (res: InsertResult)
        requires
            owner_table_wf(old(self)@),
        ensures
            owner_table_wf(final(self)@),
            match res {
                InsertResult::Added(c) => !table_has_tag(old(self)@, tag@) && c.a == 255
                    && !table_has_color(old(self)@, c)
                    && final(self)@ == old(self)@.push((tag@, c))
                    && (!table_has_color(old(self)@, Rgba::opaque_spec(r, g, b))
                    ==> c == Rgba::opaque_spec(r, g, b)),
                InsertResult::DuplicateTag => table_has_tag(old(self)@, tag@)
                    && final(self)@ == old(self)@,
                InsertResult::NoFreeColor => !table_has_tag(old(self)@, tag@)
                    && table_has_color(old(self)@, Rgba::opaque_spec(r, g, b))
                    && final(self)@ == old(self)@,
            },
    {
        if self.contains_tag(&tag) {
            return InsertResult::DuplicateTag;
        }
        match self.alloc_unique_color(r, g, b) {
            None => InsertResult::NoFreeColor,
            Some(c) => {
                let ghost tg = tag@;
                let ghost t0 = self@;
                self.entries.push(OwnerEntry { tag, color: c });
                proof {
                    assert(self@ =~= t0.push((tg, c)));
                    assert forall|i: int, j: int| 0 <= i < j < self@.len()
                        implies (#[trigger] self@[i]).0 != (#[trigger] self@[j]).0 by {
                        if j < t0.len() {
                            assert(self@[i] == t0[i] && self@[j] == t0[j]);
                        } else {
                            assert(self@[i] == t0[i] && self@[j] == (tg, c));
                        }
                    }
                    assert forall|i: int, j: int| 0 <= i < j < self@.len()
                        implies (#[trigger] self@[i]).1 != (#[trigger] self@[j]).1 by {
                        if j < t0.len() {
                            assert(self@[i] == t0[i] && self@[j] == t0[j]);
                        } else {
                            assert(self@[i] == t0[i] && self@[j] == (tg, c));
                        }
                    }
                    assert forall|i: int| 0 <= i < self@.len()
                        implies (#[trigger] self@[i]).1.a == 255 by {
                        if i < t0.len() {
                            assert(self@[i] == t0[i]);
                        }
                    }
                }
                InsertResult::Added(c)
            },
        }
    }
}

// ---------------------------------------------------------------------------
// The owner sources: tag lines and color files
// ---------------------------------------------------------------------------

/// How one line of the country-tag registry reads. `Ok(None)`: the line is
/// skipped (empty or a `#` comment). `Ok(Some((tag, path)))`: the trimmed
/// tag before the first `=`, and the `/`-bearing path between the outermost
/// quotes of the trimmed second field. `Err`: the line is malformed.
pub open spec fn tag_line_spec(line: Seq<u8>) -> Result<Option<(Seq<u8>, Seq<u8>)>, ()> {
    if line.len() == 0 || line[0] == 35 {
        Ok(None)
    } else {
        let fs = split_on(line, 61);
        if fs.len() < 2 {
            Err(())
        } else {
            let tag = trim_spec(fs[0]);
            let path = trim_spec(fs[1]);
            let f = find_idx(path, 34);
            let l = rfind_idx(path, 34);
            if f < 0 || l <= f {
                Err(())
            } else {
                let inner = path.subrange(f + 1, l);
                if find_idx(inner, 47) < 0 {
                    Err(())
                } else {
                    Ok(Some((tag, inner)))
                }
            }
        }
    }
}

pub enum TagLine {
    Skip,
    Entry(Vec<u8>, Vec<u8>),
    Malformed,
}

/// Parses one line of the country-tag registry into its owner tag and the
/// relative path of the country's color file.
pub fn parse_tag_line(line: &Vec<u8>) -> (r: TagLine)
    ensures
        match r {
            TagLine::Skip => tag_line_spec(line@) == Ok::<Option<(Seq<u8>, Seq<u8>)>, ()>(None),
            TagLine::Entry(tag, path) => tag_line_spec(line@)
                == Ok::<Option<(Seq<u8>, Seq<u8>)>, ()>(Some((tag@, path@))),
            TagLine::Malformed => tag_line_spec(line@) is Err,
        },
{
    if line.len() == 0 {
        return TagLine::Skip;
    }
    if line[0] == 35 {
        return TagLine::Skip;
    }
    let fields = split_bytes(line, 61);
    let ghost fs = split_on(line@, 61);
    proof {
        assert(views_of(fields@).len() == fields@.len());
    }
    if fields.len() < 2 {
        return TagLine::Malformed;
    }
    proof {
        assert(fields@[0]@ == fs[0]);
        assert(fields@[1]@ == fs[1]);
    }
    let tag = trim_bytes(&fields[0]);
    let path = trim_bytes(&fields[1]);
    let f = match find_byte(&path, 34) {
        Some(i) => i,
        None => { return TagLine::Malformed; },
    };
    let l = match rfind_byte(&path, 34) {
        Some(i) => i,
        None => {
            proof {
                crate::bytes::lemma_find_idx(path@, 34);
                crate::bytes::lemma_rfind_idx(path@, 34);
            }
            return TagLine::Malformed;
        },
    };
    if l <= f {
        return TagLine::Malformed;
    }
    proof {
        crate::bytes::lemma_rfind_idx(path@, 34);
    }
    let inner = sub_bytes(&path, f + 1, l);
    match find_byte(&inner, 47) {
        None => TagLine::Malformed,
        Some(_) => TagLine::Entry(tag, inner),
    }
}

/// The non-empty fields among `ss`, in order.
pub open spec fn nonempty_fields(ss: Seq<Seq<u8>>) -> Seq<Seq<u8>>
    decreases ss.len(),
{
    if ss.len() == 0 {
        Seq::<Seq<u8>>::empty()
    } else if ss[0].len() > 0 {
        seq![ss[0]] + nonempty_fields(ss.drop_first())
    } else {
        nonempty_fields(ss.drop_first())
    }
}

/// How a country color file reads: between the first `{` and the first `}`
/// stand space-separated tokens, all of them byte numerals and at least
/// three; the first three are the RGB triple. Anything else is malformed.
pub open spec fn color_triple_spec(content: Seq<u8>) -> Option<(u8, u8, u8)> {
    let f = find_idx(content, 123);
    let l = find_idx(content, 125);
    if f < 0 || l <= f {
        None
    } else {
        let toks = nonempty_fields(split_on(content.subrange(f + 1, l), 32));
        if toks.len() >= 3 && (forall|i: int|
            0 <= i < toks.len() ==> is_u8_numeral(#[trigger] toks[i])) {
            Some(
                (
                    numeral_value(toks[0]) as u8,
                    numeral_value(toks[1]) as u8,
                    numeral_value(toks[2]) as u8,
                ),
            )
        } else {
            None
        }
    }
}

/// Extracts the embedded `{ r g b }` triple of a country color file.
#[verifier::loop_isolation(false)]
pub fn parse_color_triple(content: &Vec<u8>) -> (r: Option<(u8, u8, u8)>)
    ensures
        r == color_triple_spec(content@),
{
    let f = match find_byte(content, 123) {
        Some(i) => i,
        None => { return None; },
    };
    let l = match find_byte(content, 125) {
        Some(i) => i,
        None => { return None; },
    };
    if l <= f {
        return None;
    }
    proof {
        crate::bytes::lemma_find_idx(content@, 125);
    }
    let inner = sub_bytes(content, f + 1, l);
    let raw = split_bytes(&inner, 32);
    let ghost rs = split_on(inner@, 32);
    let mut toks: Vec<Vec<u8>> = Vec::new();
    let mut i: usize = 0;
    proof {
        assert(rs.subrange(0, rs.len() as int) =~= rs);
        assert(views_of(toks@) + nonempty_fields(rs) =~= nonempty_fields(rs));
    }
    while i < raw.len()
        invariant
            0 <= i <= raw@.len(),
            views_of(raw@) == rs,
            nonempty_fields(rs) == views_of(toks@)
                + nonempty_fields(rs.subrange(i as int, rs.len() as int)),
        decreases raw@.len() - i,
    {
        let ghost rest = rs.subrange(i as int, rs.len() as int);
        proof {
            assert(rest[0] == rs[i as int]);
            assert(rs[i as int] == raw@[i as int]@);
            assert(rest.drop_first() =~= rs.subrange(i as int + 1, rs.len() as int));
        }
        if raw[i].len() > 0 {
            let t = clone_bytes(&raw[i]);
            proof {
                assert(views_of(toks@.push(t)) =~= views_of(toks@) + seq![t@]);
                assert(views_of(toks@) + seq![raw@[i as int]@]
                    + nonempty_fields(rest.drop_first()) =~= nonempty_fields(rs));
            }
            toks.push(t);
        }
        i += 1;
    }
    proof {
        assert(rs.subrange(i as int, rs.len() as int) =~= Seq::<Seq<u8>>::empty());
        assert(views_of(toks@) =~= nonempty_fields(rs));
    }
    let ghost ts = nonempty_fields(rs);
    if toks.len() < 3 {
        return None;
    }
    let mut k: usize = 0;
    while k < toks.len()
        invariant
            0 <= k <= toks@.len(),
            views_of(toks@) == ts,
            forall|j: int| 0 <= j < k ==> is_u8_numeral(#[trigger] ts[j]),
        decreases toks@.len() - k,
    {
        match parse_u8(&toks[k]) {
            Some(_) => {},
            None => {
                assert(!is_u8_numeral(ts[k as int]));
                return None;
            },
        }
        k += 1;
    }
    let r = match parse_u8(&toks[0]) {
        Some(v) => v,
        None => { return None; },
    };
    let g = match parse_u8(&toks[1]) {
        Some(v) => v,
        None => { return None; },
    };
    let b = match parse_u8(&toks[2]) {
        Some(v) => v,
        None => { return None; },
    };
    Some((r, g, b))
}

/// The outcome of registering one owner from its color file.
#[derive(Clone, Copy, PartialEq, Eq, Structural, Debug)]
pub enum RegisterResult {
    Added(Rgba),
    DuplicateTag,
    NoFreeColor,
    BadColor,
}

impl OwnerColorTable {
    /// Registers one owner from the raw content of its color file: extracts
    /// the `{ r g b }` triple, allocates a table-unique color from it, and
    /// inserts the pair.
    pub fn register_owner(&mut self, tag: Vec<u8>, content: &Vec<u8>) -> (res: RegisterResult)
        requires
            owner_table_wf(old(self)@),
        ensures
            owner_table_wf(final(self)@),
            match res {
                RegisterResult::BadColor => color_triple_spec(content@) is None
                    && final(self)@ == old(self)@,
                RegisterResult::Added(c) => color_triple_spec(content@) matches Some(rgb)
                    && !table_has_tag(old(self)@, tag@) && c.a == 255
                    && !table_has_color(old(self)@, c)
                    && final(self)@ == old(self)@.push((tag@, c))
                    && (!table_has_color(old(self)@, Rgba::opaque_spec(rgb.0, rgb.1, rgb.2))
                    ==> c == Rgba::opaque_spec(rgb.0, rgb.1, rgb.2)),
                RegisterResult::DuplicateTag => color_triple_spec(content@) is Some
                    && table_has_tag(old(self)@, tag@) && final(self)@ == old(self)@,
                RegisterResult::NoFreeColor => color_triple_spec(content@) matches Some(rgb)
                    && !table_has_tag(old(self)@, tag@)
                    && table_has_color(old(self)@, Rgba::opaque_spec(rgb.0, rgb.1, rgb.2))
                    && final(self)@ == old(self)@,
            },
    {
        let (r, g, b) = match parse_color_triple(content) {
            Some(t) => t,
            None => { return RegisterResult::BadColor; },
        };
        match self.insert_owner(tag, r, g, b) {
            InsertResult::Added(c) => RegisterResult::Added(c),
            InsertResult::DuplicateTag => RegisterResult::DuplicateTag,
            InsertResult::NoFreeColor => RegisterResult::NoFreeColor,
        }
    }
}

} // verus!
