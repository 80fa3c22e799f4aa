use vstd::prelude::*;

verus! {

/// Width of a glyph cell, in pixels.
pub const FONT_WIDTH: usize = 5;

/// Height of a glyph cell, in pixels.
pub const FONT_HEIGHT: usize = 12;

/// Number of pixels in a glyph cell.
pub const GLYPH_CELLS: usize = 60;

/// Why a glyph definition was refused.
#[derive(Debug, Clone, Copy, PartialEq, Eq, Structural)]
pub enum FontError {
    /// The text is not JSON.
    InvalidJson,
    /// The top level is not an object of character keys.
    NotAnObject,
    /// A character's rows are not an array.
    NotAnArray,
    /// A row is not a non-negative integer.
    NotAnInteger,
    /// A character has a number of rows other than the glyph height.
    WrongRowCount,
    /// A key is the empty string.
    EmptyKey,
}

/// Cell `x` of a row bitmask: bit `x`, as 0 or 1.
pub open spec fn row_bit(row: u64, x: int) -> u8 {
    if (row >> (x as u64)) & 1 == 1 {
        1
    } else {
        0
    }
}

/// The cells of a glyph given by one bitmask per row, row-major.
pub open spec fn cells_of_rows(rows: Seq<u64>) -> Seq<u8> {
    Seq::new(
        GLYPH_CELLS as nat,
        |i: int| row_bit(rows[i / FONT_WIDTH as int], i % FONT_WIDTH as int),
    )
}

/// A glyph: 0/1 cells, row-major, of the fixed cell size.
pub open spec fn is_glyph(cells: Seq<u8>) -> bool {
    cells.len() == GLYPH_CELLS && forall|i: int| 0 <= i < cells.len() ==> #[trigger] cells[i] <= 1
}

/// Turns per-row bitmasks into glyph cells: the low `FONT_WIDTH` bits of each
/// row, bit `i` to column `i`. `None` unless there are exactly `FONT_HEIGHT` rows.
pub fn glyph_from_rows(rows: &Vec<u64>) -> (r: Option<Vec<u8>>)
    ensures
        rows@.len() == FONT_HEIGHT <==> r is Some,
        r matches Some(cells) ==> cells@ == cells_of_rows(rows@) && is_glyph(cells@),
{
    if rows.len() != FONT_HEIGHT {
        return None;
    }
    let mut cells: Vec<u8> = Vec::new();
    let mut y: usize = 0;
    while y < FONT_HEIGHT
        invariant
            rows@.len() == FONT_HEIGHT,
            y <= FONT_HEIGHT,
            cells@.len() == y * FONT_WIDTH,
            forall|i: int|
                0 <= i < cells@.len() ==> #[trigger] cells@[i] == row_bit(
                    rows@[i / FONT_WIDTH as int],
                    i % FONT_WIDTH as int,
                ),
        decreases FONT_HEIGHT - y,
    {
        let row = rows[y];
        let mut x: usize = 0;
        while x < FONT_WIDTH
            invariant
                rows@.len() == FONT_HEIGHT,
                y < FONT_HEIGHT,
                x <= FONT_WIDTH,
                row == rows@[y as int],
                cells@.len() == y * FONT_WIDTH + x,
                forall|i: int|
                    0 <= i < cells@.len() ==> #[trigger] cells@[i] == row_bit(
                        rows@[i / FONT_WIDTH as int],
                        i % FONT_WIDTH as int,
                    ),
            decreases FONT_WIDTH - x,
        {
            let bit: u8 = if (row >> (x as u64)) & 1 == 1 {
                1
            } else {
                0
            };
            proof {
                let i = (y * FONT_WIDTH + x) as int;
                assert(i / FONT_WIDTH as int == y as int);
                assert(i % FONT_WIDTH as int == x as int);
            }
            cells.push(bit);
            x = x + 1;
        }
        y = y + 1;
    }
    assert(cells@ =~= cells_of_rows(rows@));
    Some(cells)
}

/// A member of a glyph definition as read: the key, and its value when it is
/// an array, each item the number when it is a non-negative 64-bit integer.
pub type MemberView = (Seq<char>, Option<Seq<Option<u64>>>);

/// The members of the JSON text `text` in serde_json's map order: `None` when
/// the text is not JSON, `Some(None)` when it is not an object.
pub uninterp spec fn definition_of(text: Seq<char>) -> Option<Option<Seq<MemberView>>>;

pub open spec fn member_view(m: (String, Option<Vec<Option<u64>>>)) -> MemberView {
    (
        m.0@,
        match m.1 {
            Some(a) => Some(a@),
            None => None,
        },
    )
}

pub open spec fn members_view(v: Seq<(String, Option<Vec<Option<u64>>>)>) -> Seq<MemberView> {
    v.map_values(|m: (String, Option<Vec<Option<u64>>>)| member_view(m))
}

pub open spec fn definition_view(r: Option<Option<Vec<(String, Option<Vec<Option<u64>>>)>>>) -> Option<
    Option<Seq<MemberView>>,
> {
    match r {
        None => None,
        Some(None) => Some(None),
        Some(Some(v)) => Some(Some(members_view(v@))),
    }
}

/// Relies on serde_json::from_str and on serde_json::Value's `as_object` (and
/// its map's `iter`), `as_array` and `as_u64`: the members of the parsed
/// object, each value read as an array of non-negative integers.
#[verifier::external_body]
fn read_definition(text: &str) -> (r: Option<Option<Vec<(String, Option<Vec<Option<u64>>>)>>>)
    ensures
        definition_view(r) == definition_of(text@),
{
    let v: serde_json::Value = serde_json::from_str(text).ok()?;
    Some(v.as_object().map(|m| {
        m.iter().map(|(k, x)| (k.clone(), x.as_array().map(|a| a.iter().map(|n| n.as_u64()).collect()))).collect()
    }))
}

/// The row masks of an array whose items are all numbers.
pub open spec fn rows_of(items: Seq<Option<u64>>) -> Seq<u64> {
    items.map_values(|n: Option<u64>| match n {
        Some(v) => v,
        None => 0,
    })
}

/// What is wrong with one member, if anything. A key whose first character is
/// not ASCII is skipped whatever its value.
pub open spec fn member_error(m: MemberView) -> Option<FontError> {
    if m.0.len() == 0 {
        Some(FontError::EmptyKey)
    } else if (m.0[0] as u32) >= 128 {
        None
    } else {
        match m.1 {
            None => Some(FontError::NotAnArray),
            Some(items) => if exists|i: int| 0 <= i < items.len() && #[trigger] items[i] is None {
                Some(FontError::NotAnInteger)
            } else if items.len() != FONT_HEIGHT {
                Some(FontError::WrongRowCount)
            } else {
                None
            },
        }
    }
}

/// The error of the first faulty member, in order.
pub open spec fn definition_error(ms: Seq<MemberView>) -> Option<FontError>
    decreases ms.len(),
{
    if ms.len() == 0 {
        None
    } else {
        match definition_error(ms.drop_last()) {
            Some(e) => Some(e),
            None => member_error(ms.last()),
        }
    }
}

/// The glyphs a sound definition gives: each ASCII first character mapped to
/// the cells of the last member whose key starts with it.
pub open spec fn glyphs_of(ms: Seq<MemberView>) -> Map<char, Seq<u8>>
    decreases ms.len(),
{
    if ms.len() == 0 {
        Map::empty()
    } else {
        let prev = glyphs_of(ms.drop_last());
        let m = ms.last();
        if m.0.len() > 0 && (m.0[0] as u32) < 128 {
            prev.insert(m.0[0], cells_of_rows(rows_of(m.1->0)))
        } else {
            prev
        }
    }
}

/// A sound definition's font has a glyph for exactly the ASCII characters
/// that start some key.
pub proof fn lemma_glyph_keys(ms: Seq<MemberView>, c: char)
    ensures
        glyphs_of(ms).contains_key(c) <==> ((c as u32) < 128 && exists|i: int|
            0 <= i < ms.len() && (#[trigger] ms[i]).0.len() > 0 && ms[i].0[0] == c),
    decreases ms.len(),
{
    if ms.len() > 0 {
        let prev = ms.drop_last();
        lemma_glyph_keys(prev, c);
        if exists|i: int| 0 <= i < prev.len() && (#[trigger] prev[i]).0.len() > 0 && prev[i].0[0] == c {
            let i = choose|i: int| 0 <= i < prev.len() && (#[trigger] prev[i]).0.len() > 0 && prev[i].0[0] == c;
            assert(ms[i] == prev[i]);
        }
        if exists|i: int| 0 <= i < ms.len() && (#[trigger] ms[i]).0.len() > 0 && ms[i].0[0] == c {
            let i = choose|i: int| 0 <= i < ms.len() && (#[trigger] ms[i]).0.len() > 0 && ms[i].0[0] == c;
            if i < ms.len() - 1 {
                assert(prev[i] == ms[i]);
            }
        }
    }
}

proof fn lemma_error_persists(ms: Seq<MemberView>, k: int)
    requires
        0 <= k <= ms.len(),
        definition_error(ms.take(k)) is Some,
    ensures
        definition_error(ms) == definition_error(ms.take(k)),
    decreases ms.len() - k,
{
    if k < ms.len() {
        assert(ms.take(k + 1).drop_last() =~= ms.take(k));
        lemma_error_persists(ms, k + 1);
    } else {
        assert(ms.take(k) =~= ms);
    }
}

/// The first character of a key, `None` for the empty key.
fn first_char(key: &String) -> (r: Option<char>)
    ensures
        key@.len() == 0 ==> r is None,
        key@.len() > 0 ==> r == Some(key@[0]),
{
    broadcast use vstd::string::axiom_spec_iter, vstd::string::next_postcondition;

    let mut it = key.as_str().chars();
    it.next()
}

/// In a sequence of glyphs with strictly increasing keys, a key sits at one position.
proof fn lemma_unique_key(gs: Seq<Glyph>, i: int, j: int)
    requires
        forall|a: int, b: int| 0 <= a < b < gs.len() ==> (gs[a].ch as u32) < (gs[b].ch as u32),
        0 <= i < gs.len(),
        0 <= j < gs.len(),
        gs[i].ch == gs[j].ch,
    ensures
        i == j,
{
    if i < j {
        assert((gs[i].ch as u32) < (gs[j].ch as u32));
    } else if j < i {
        assert((gs[j].ch as u32) < (gs[i].ch as u32));
    }
}

/// One glyph of a font.
#[derive(Debug, Clone)]
pub struct Glyph {
    pub ch: char,
    pub cells: Vec<u8>,
}

/// A bitmap font: glyphs keyed by character, kept in increasing character order.
#[derive(Debug)]
pub struct Font {
    pub glyphs: Vec<Glyph>,
}

impl Font {
    /// Keys strictly increasing, every glyph of the cell size with 0/1 cells.
    pub open spec fn wf(&self) -> bool {
        &&& forall|i: int, j: int|
            0 <= i < j < self.glyphs@.len() ==> (self.glyphs@[i].ch as u32) < (
            self.glyphs@[j].ch as u32)
        &&& forall|i: int| 0 <= i < self.glyphs@.len() ==> is_glyph(#[trigger] self.glyphs@[i].cells@)
    }

    /// Position of the glyph of `c` (meaningful when the font has one).
    pub open spec fn index_of(&self, c: char) -> int {
        choose|i: int| 0 <= i < self.glyphs@.len() && #[trigger] self.glyphs@[i].ch == c
    }

    /// The font as a map from character to cells.
    pub open spec fn glyph_map(&self) -> Map<char, Seq<u8>> {
        Map::new(|c: char| self.has_key(c), |c: char| self.glyphs@[self.index_of(c)].cells@)
    }

    pub open spec fn has_key(&self, c: char) -> bool {
        exists|i: int| 0 <= i < self.glyphs@.len() && #[trigger] self.glyphs@[i].ch == c
    }

    /// A font without glyphs.
    pub fn new() -> (f: Self)
        ensures
            f.wf(),
            f.glyphs@.len() == 0,
    {
        Font { glyphs: Vec::new() }
    }

    /// Whether the font has a glyph for `c`.
    pub fn contains_key(&self, c: &char) -> (r: bool)
        ensures
            r == self.has_key(*c),
    {
        let mut i: usize = 0;
        while i < self.glyphs.len()
            invariant
                i <= self.glyphs@.len(),
                forall|k: int| 0 <= k < i ==> self.glyphs@[k].ch != *c,
            decreases self.glyphs@.len() - i,
        {
            if self.glyphs[i].ch == *c {
                return true;
            }
            i = i + 1;
        }
        false
    }

    /// Adds the glyph of an ASCII character from its row bitmasks; any other
    /// character is skipped and leaves the font as it was.
    pub fn add_glyph(&mut self, c: char, rows: &Vec<u64>) -> (r: Result<(), FontError>)
        requires
            old(self).wf(),
        ensures
            final(self).wf(),
            (c as u32) >= 128 ==> r is Ok && final(self).glyphs@ == old(self).glyphs@,
            (c as u32) < 128 && rows@.len() != FONT_HEIGHT ==> r == Err::<(), FontError>(
                FontError::WrongRowCount,
            ) && final(self).glyphs@ == old(self).glyphs@,
            (c as u32) < 128 && rows@.len() == FONT_HEIGHT ==> final(self).glyph_map()
                == old(self).glyph_map().insert(c, cells_of_rows(rows@)),
            (c as u32) < 128 && rows@.len() == FONT_HEIGHT ==> r is Ok && final(self).has_key(c)
                && forall|i: int|
                0 <= i < final(self).glyphs@.len() && #[trigger] final(self).glyphs@[i].ch == c
                    ==> final(self).glyphs@[i].cells@ == cells_of_rows(rows@),
    {
        if (c as u32) >= 128 {
            return Ok(());
        }
        match glyph_from_rows(rows) {
            None => Err(FontError::WrongRowCount),
            Some(cells) => {
                let ghost cs = cells@;
                self.insert(c, cells);
                proof {
                    let g = self.glyphs@;
                    let p = choose|p: int|
                        0 <= p < g.len() && #[trigger] g[p].ch == c && g[p].cells@ == cs;
                    assert(self.has_key(c));
                    assert forall|i: int|
                        0 <= i < g.len() && #[trigger] g[i].ch == c implies g[i].cells@ == cs by {
                        if i != p {
                            if i < p {
                                assert((g[i].ch as u32) < (g[p].ch as u32));
                            } else {
                                assert((g[p].ch as u32) < (g[i].ch as u32));
                            }
                        }
                    }
                }
                Ok(())
            },
        }
    }

    /// Builds a font from the members of a glyph definition, in order: the
    /// first faulty member's error, else every ASCII first character with the
    /// cells of the last member whose key starts with it.
    #[verifier::loop_isolation(false)]
    pub fn from_members(members: &Vec<(String, Option<Vec<Option<u64>>>)>) -> (r: Result<Font, FontError>)
        ensures
            definition_error(members_view(members@)) matches Some(e) ==> r == Err::<Font, FontError>(e),
            definition_error(members_view(members@)) is None ==> (r matches Ok(f) && f.wf()
                && f.glyph_map() == glyphs_of(members_view(members@))),
    {
        let ghost ms = members_view(members@);
        let mut font = Font::new();
        assert(font.glyph_map() =~= Map::empty());
        let mut i: usize = 0;
        while i < members.len()
            invariant
                ms == members_view(members@),
                font.wf(),
                i <= members@.len(),
                definition_error(ms.take(i as int)) is None,
                font.glyph_map() == glyphs_of(ms.take(i as int)),
            decreases members@.len() - i,
        {
            let ghost m = ms[i as int];
            assert(ms.take(i as int + 1).drop_last() =~= ms.take(i as int));
            assert(ms.take(i as int + 1).last() == m);
            let c = match first_char(&members[i].0) {
                Some(c) => c,
                None => {
                    assert(m == member_view(members@[i as int]));
                    proof { lemma_error_persists(ms, i as int + 1); }
                    return Err(FontError::EmptyKey);
                },
            };
            assert(m == member_view(members@[i as int]));
            assert(m.0.len() > 0 && m.0[0] == c);
            if (c as u32) < 128 {
                let items = match &members[i].1 {
                    Some(a) => {
                        assert(m == member_view(members@[i as int]));
                        assert(m.1 == Some(a@));
                        a
                    },
                    None => {
                        proof { lemma_error_persists(ms, i as int + 1); }
                        return Err(FontError::NotAnArray);
                    },
                };
                let mut rows: Vec<u64> = Vec::new();
                let mut j: usize = 0;
                while j < items.len()
                    invariant
                        j <= items@.len(),
                        rows@.len() == j,
                        forall|k: int| 0 <= k < j ==> items@[k] == Some(#[trigger] rows@[k]),
                    decreases items@.len() - j,
                {
                    match items[j] {
                        Some(v) => rows.push(v),
                        None => {
                            proof {
                                assert(items@[j as int] is None);
                                lemma_error_persists(ms, i as int + 1);
                            }
                            return Err(FontError::NotAnInteger);
                        },
                    }
                    j = j + 1;
                }
                assert(rows@ =~= rows_of(items@));
                assert forall|k: int| 0 <= k < items@.len() implies !(#[trigger] items@[k] is None) by {
                    assert(items@[k] == Some(rows@[k]));
                }
                match font.add_glyph(c, &rows) {
                    Ok(()) => {},
                    Err(e) => {
                        proof { lemma_error_persists(ms, i as int + 1); }
                        return Err(e);
                    },
                }
            }
            i = i + 1;
        }
        assert(ms.take(members@.len() as int) =~= ms);
        Ok(font)
    }

    /// Reads a glyph definition: a JSON object from character keys to arrays of
    /// row bitmasks (see `from_members`).
    pub fn load(json: &str) -> (r: Result<Font, FontError>)
        ensures
            definition_of(json@) is None ==> r == Err::<Font, FontError>(FontError::InvalidJson),
            definition_of(json@) == Some(None::<Seq<MemberView>>) ==> r == Err::<Font, FontError>(
                FontError::NotAnObject,
            ),
            definition_of(json@) matches Some(Some(ms)) ==> {
                &&& definition_error(ms) matches Some(e) ==> r == Err::<Font, FontError>(e)
                &&& definition_error(ms) is None ==> (r matches Ok(f) && f.wf() && f.glyph_map()
                    == glyphs_of(ms))
            },
    {
        match read_definition(json) {
            None => Err(FontError::InvalidJson),
            Some(None) => Err(FontError::NotAnObject),
            Some(Some(members)) => Font::from_members(&members),
        }
    }

    /// Sets the glyph of `c`, replacing the one it had, keeping the keys in order.
    pub fn insert(&mut self, c: char, cells: Vec<u8>)
        requires
            old(self).wf(),
            is_glyph(cells@),
        ensures
            final(self).wf(),
            final(self).glyph_map() == old(self).glyph_map().insert(c, cells@),
            old(self).has_key(c) ==> exists|p: int|
                0 <= p < old(self).glyphs@.len() && old(self).glyphs@[p].ch == c
                    && final(self).glyphs@.len() == old(self).glyphs@.len()
                    && final(self).glyphs@[p].ch == c && final(self).glyphs@[p].cells@ == cells@
                    && forall|k: int|
                    0 <= k < old(self).glyphs@.len() && k != p ==> #[trigger] final(self).glyphs@[k]
                        == old(self).glyphs@[k],
            !old(self).has_key(c) ==> exists|p: int|
                0 <= p <= old(self).glyphs@.len() && final(self).glyphs@.len()
                    == old(self).glyphs@.len() + 1 && final(self).glyphs@[p].ch == c
                    && final(self).glyphs@[p].cells@ == cells@
                    && (forall|k: int| 0 <= k < p ==> #[trigger] final(self).glyphs@[k] == old(self).glyphs@[k])
                    && (forall|k: int|
                    p <= k < old(self).glyphs@.len() ==> #[trigger] final(self).glyphs@[k + 1]
                        == old(self).glyphs@[k]),
    {
        let ghost g0 = self.glyphs@;
        let mut p: usize = 0;
        while p < self.glyphs.len() && (self.glyphs[p].ch as u32) < (c as u32)
            invariant
                self.glyphs@ == g0,
                p <= g0.len(),
                forall|k: int| 0 <= k < p ==> (g0[k].ch as u32) < (c as u32),
            decreases g0.len() - p,
        {
            p = p + 1;
        }
        let glyph = Glyph { ch: c, cells };
        if p < self.glyphs.len() && self.glyphs[p].ch == c {
            self.glyphs.set(p, glyph);
            assert(old(self).has_key(c));
            assert(forall|k: int|
                0 <= k < g0.len() && k != p ==> #[trigger] self.glyphs@[k] == g0[k]);
            proof {
                let ghost_old = old(self);
                let g1 = self.glyphs@;
                assert forall|d: char| #[trigger] self.has_key(d) == (ghost_old.has_key(d) || d == c) by {
                    if ghost_old.has_key(d) {
                        let i = ghost_old.index_of(d);
                        if i == p { assert(g1[p as int].ch == c); } else { assert(g1[i] == g0[i]); }
                    }
                    if self.has_key(d) {
                        let i = self.index_of(d);
                        if i != p { assert(g1[i] == g0[i]); }
                    }
                }
                assert forall|d: char| self.has_key(d) implies self.glyphs@[#[trigger] self.index_of(d)].cells@
                    == ghost_old.glyph_map().insert(c, cells@)[d] by {
                    let i = self.index_of(d);
                    if d == c {
                        lemma_unique_key(g1, i, p as int);
                    } else {
                        assert(g1[i] == g0[i]);
                        assert(ghost_old.has_key(d));
                        lemma_unique_key(g0, i, ghost_old.index_of(d));
                    }
                }
                assert(self.glyph_map() =~= ghost_old.glyph_map().insert(c, cells@));
            }
        } else {
            proof {
                assert forall|k: int| 0 <= k < g0.len() implies g0[k].ch != c by {
                    if k >= p {
                        assert((g0[k].ch as u32) >= (g0[p as int].ch as u32));
                    }
                }
            }
            self.glyphs.insert(p, glyph);
            assert(!old(self).has_key(c));
            assert(forall|k: int| 0 <= k < p ==> #[trigger] self.glyphs@[k] == g0[k]);
            assert(forall|k: int| p <= k < g0.len() ==> #[trigger] self.glyphs@[k + 1] == g0[k]);
            assert(self.glyphs@[p as int].ch == c && self.glyphs@[p as int].cells@ == cells@);
            assert(self.glyphs@.len() == g0.len() + 1);
            proof {
                let ghost_old = old(self);
                let g1 = self.glyphs@;
                assert forall|d: char| #[trigger] self.has_key(d) == (ghost_old.has_key(d) || d == c) by {
                    if ghost_old.has_key(d) {
                        let i = ghost_old.index_of(d);
                        if i < p { assert(g1[i] == g0[i]); } else { assert(g1[i + 1] == g0[i]); }
                    }
                    if self.has_key(d) && d != c {
                        let i = self.index_of(d);
                        if i < p { assert(g1[i] == g0[i]); } else if i > p { assert(g1[i] == g0[i - 1]); }
                    }
                }
                assert forall|d: char| self.has_key(d) implies self.glyphs@[#[trigger] self.index_of(d)].cells@
                    == ghost_old.glyph_map().insert(c, cells@)[d] by {
                    let i = self.index_of(d);
                    if d == c {
                        lemma_unique_key(g1, i, p as int);
                    } else {
                        assert(ghost_old.has_key(d));
                        let j = ghost_old.index_of(d);
                        if i < p {
                            assert(g1[i] == g0[i]);
                            lemma_unique_key(g0, i, j);
                        } else {
                            assert(g1[i] == g0[i - 1]);
                            lemma_unique_key(g0, i - 1, j);
                        }
                    }
                }
                assert(self.glyph_map() =~= ghost_old.glyph_map().insert(c, cells@));
            }
        }
    }
}

} // verus!
