use vstd::prelude::*;

use crate::color::SCALE;
use crate::font::{is_glyph, Font, Glyph};

verus! {

/// Number of "on" cells of a glyph.
pub open spec fn ink_count(cells: Seq<u8>) -> int
    decreases cells.len(),
{
    if cells.len() == 0 {
        0
    } else {
        ink_count(cells.drop_last()) + cells.last()
    }
}

pub open spec fn seq_min(s: Seq<int>) -> int
    decreases s.len(),
{
    if s.len() <= 1 {
        if s.len() == 0 { 0 } else { s[0] }
    } else {
        let m = seq_min(s.drop_last());
        if s.last() < m { s.last() } else { m }
    }
}

pub open spec fn seq_max(s: Seq<int>) -> int
    decreases s.len(),
{
    if s.len() <= 1 {
        if s.len() == 0 { 0 } else { s[0] }
    } else {
        let m = seq_max(s.drop_last());
        if s.last() > m { s.last() } else { m }
    }
}

/// Ink counts of a font's glyphs, in font order.
pub open spec fn ink_counts(gs: Seq<Glyph>) -> Seq<int> {
    gs.map_values(|g: Glyph| ink_count(g.cells@))
}

/// Lightness of an ink count, mapped linearly so that the font's lightest
/// glyph gets `SCALE` and its darkest 0. When all glyphs have the same
/// lightness there is no range to map onto, and every glyph gets 0.
pub open spec fn normalized(count: int, lo: int, hi: int) -> int {
    if hi <= lo {
        0
    } else {
        ((count - lo) * SCALE) / (hi - lo)
    }
}

/// One entry of the catalog: a glyph with its normalized lightness.
#[derive(Debug, Clone)]
pub struct CatalogEntry {
    pub lightness: u64,
    pub ch: char,
    pub cells: Vec<u8>,
}

/// `e` is glyph `g` of a font whose ink counts run from `lo` to `hi`.
#[verifier::opaque]
pub open spec fn entry_of(e: CatalogEntry, g: Glyph, lo: int, hi: int) -> bool {
    e.ch == g.ch && e.cells@ == g.cells@ && e.lightness == normalized(ink_count(g.cells@), lo, hi)
}

pub open spec fn lightness_seq(es: Seq<CatalogEntry>) -> Seq<int> {
    es.map_values(|e: CatalogEntry| e.lightness as int)
}

/// Ascending lightness, equal lightness in character order, lightness at
/// most `SCALE`, every cell pattern a glyph.
pub open spec fn entries_wf(es: Seq<CatalogEntry>) -> bool {
    &&& forall|i: int, j: int| 0 <= i < j < es.len() ==> es[i].lightness <= es[j].lightness
    &&& forall|i: int, j: int|
        0 <= i < j < es.len() && es[i].lightness == es[j].lightness ==> (es[i].ch as u32) < (
        es[j].ch as u32)
    &&& forall|i: int| 0 <= i < es.len() ==> #[trigger] es[i].lightness <= SCALE
    &&& forall|i: int| 0 <= i < es.len() ==> is_glyph(#[trigger] es[i].cells@)
}

/// Each of `es` is one of the first `j` glyphs of `gs`, with its normalized lightness.
pub open spec fn entries_from_glyphs(es: Seq<CatalogEntry>, gs: Seq<Glyph>, j: int, lo: int, hi: int) -> bool {
    forall|a: int| #![trigger es[a]]
        0 <= a < es.len() ==> exists|k: int| 0 <= k < j && entry_of(es[a], gs[k], lo, hi)
}

/// A font's glyphs in ascending order of lightness.
#[derive(Debug)]
pub struct FontSortByLightness {
    pub entries: Vec<CatalogEntry>,
}

pub open spec fn sorted(ls: Seq<int>) -> bool {
    forall|i: int, j: int| 0 <= i < j < ls.len() ==> ls[i] <= ls[j]
}

/// Length of the leading run of values below `t`; for a sorted sequence, the
/// position at which `t` would be inserted before any equal value.
pub open spec fn count_below(ls: Seq<int>, t: int) -> int
    decreases ls.len(),
{
    if ls.len() == 0 {
        0
    } else if ls[0] < t {
        1 + count_below(ls.drop_first(), t)
    } else {
        0
    }
}

/// Index of the entry whose lightness is nearest to `t`: at the insertion
/// point `p`, the entry before it wins only when strictly closer; targets
/// beyond either end take the end entry.
pub open spec fn nearest(ls: Seq<int>, t: int) -> int {
    let p = count_below(ls, t);
    if p == 0 {
        0
    } else if p == ls.len() {
        ls.len() - 1
    } else if t - ls[p - 1] < ls[p] - t {
        p - 1
    } else {
        p
    }
}

pub proof fn lemma_count_below(ls: Seq<int>, t: int)
    requires
        sorted(ls),
    ensures
        0 <= count_below(ls, t) <= ls.len(),
        forall|k: int| 0 <= k < ls.len() ==> (ls[k] < t <==> k < count_below(ls, t)),
    decreases ls.len(),
{
    if ls.len() > 0 {
        let rest = ls.drop_first();
        assert(sorted(rest));
        lemma_count_below(rest, t);
        assert forall|k: int| 0 <= k < ls.len() implies (ls[k] < t <==> k < count_below(ls, t)) by {
            if k > 0 {
                assert(ls[k] == rest[k - 1]);
                assert(ls[0] <= ls[k]);
            }
        }
    }
}

/// Number of "on" cells of a glyph.
fn calc_fontarray_lightness(cells: &Vec<u8>) -> (r: u64)
    requires
        is_glyph(cells@),
    ensures
        r == ink_count(cells@),
        r <= cells@.len(),
{
    let mut sum: u64 = 0;
    let mut i: usize = 0;
    while i < cells.len()
        invariant
            is_glyph(cells@),
            i <= cells@.len(),
            sum == ink_count(cells@.subrange(0, i as int)),
            sum <= i,
        decreases cells@.len() - i,
    {
        assert(cells@.subrange(0, i as int + 1).drop_last() =~= cells@.subrange(0, i as int));
        assert(cells@[i as int] <= 1);
        sum = sum + cells[i] as u64;
        i = i + 1;
    }
    assert(cells@.subrange(0, cells@.len() as int) =~= cells@);
    sum
}

pub open spec fn as_ints(v: Seq<u64>) -> Seq<int> {
    v.map_values(|c: u64| c as int)
}

/// Maps each count linearly onto `0..=SCALE` by the smallest and largest count.
fn normalize_lightness(counts: &Vec<u64>) -> (r: Vec<u64>)
    requires
        forall|k: int| 0 <= k < counts@.len() ==> #[trigger] counts@[k] <= 1000,
    ensures
        r@.len() == counts@.len(),
        forall|k: int|
            0 <= k < counts@.len() ==> #[trigger] r@[k] == normalized(
                counts@[k] as int,
                seq_min(as_ints(counts@)),
                seq_max(as_ints(counts@)),
            ),
        forall|k: int| 0 <= k < counts@.len() ==> #[trigger] r@[k] <= SCALE,
{
    let ghost cs = as_ints(counts@);
    let mut lo: u64 = 0;
    let mut hi: u64 = 0;
    let mut i: usize = 0;
    while i < counts.len()
        invariant
            cs == as_ints(counts@),
            i <= counts@.len(),
            lo == seq_min(cs.subrange(0, i as int)),
            hi == seq_max(cs.subrange(0, i as int)),
            forall|k: int| 0 <= k < i ==> lo <= #[trigger] counts@[k] <= hi,
        decreases counts@.len() - i,
    {
        assert(cs.subrange(0, i as int + 1).drop_last() =~= cs.subrange(0, i as int));
        let c = counts[i];
        if i == 0 {
            lo = c;
            hi = c;
        } else {
            if c < lo {
                lo = c;
            }
            if c > hi {
                hi = c;
            }
        }
        i = i + 1;
    }
    assert(cs.subrange(0, counts@.len() as int) =~= cs);
    let mut out: Vec<u64> = Vec::new();
    let mut j: usize = 0;
    while j < counts.len()
        invariant
            j <= counts@.len(),
            out@.len() == j,
            lo == seq_min(cs),
            hi == seq_max(cs),
            cs == as_ints(counts@),
            forall|k: int| 0 <= k < counts@.len() ==> lo <= #[trigger] counts@[k] <= hi,
            forall|k: int| 0 <= k < counts@.len() ==> #[trigger] counts@[k] <= 1000,
            forall|k: int|
                0 <= k < j ==> #[trigger] out@[k] == normalized(counts@[k] as int, lo as int, hi as int),
            forall|k: int| 0 <= k < j ==> #[trigger] out@[k] <= SCALE,
        decreases counts@.len() - j,
    {
        let c = counts[j];
        let v = if hi <= lo {
            0
        } else {
            let v = ((c - lo) * SCALE) / (hi - lo);
            proof {
                let (ci, li, hj) = (c as int, lo as int, hi as int);
                assert(((ci - li) * SCALE) / (hj - li) <= SCALE) by (nonlinear_arith)
                    requires
                        li <= ci <= hj,
                        li < hj,
                ;
            }
            v
        };
        out.push(v);
        j = j + 1;
    }
    out
}

/// Inserts `e` after every entry of lightness at most its own.
fn insert_by_lightness(entries: &mut Vec<CatalogEntry>, e: CatalogEntry) -> (p: usize)
    requires
        entries_wf(old(entries)@),
        e.lightness <= SCALE,
        is_glyph(e.cells@),
        forall|a: int| 0 <= a < old(entries)@.len() ==> (#[trigger] old(entries)@[a].ch as u32) < (e.ch as u32),
    ensures
        entries_wf(final(entries)@),
        p <= old(entries)@.len(),
        final(entries)@ == old(entries)@.insert(p as int, e),
{
    let x = e.lightness;
    let mut p: usize = 0;
    while p < entries.len() && entries[p].lightness <= x
        invariant
            p <= entries@.len(),
            forall|a: int| 0 <= a < p ==> #[trigger] entries@[a].lightness <= x,
        decreases entries@.len() - p,
    {
        p = p + 1;
    }
    let ghost old_entries = entries@;
    proof {
        assert forall|a: int| p <= a < old_entries.len() implies #[trigger] old_entries[a].lightness
            > x by {
            assert(old_entries[p as int].lightness <= old_entries[a].lightness);
        }
    }
    entries.insert(p, e);
    proof {
        let ne = entries@;
        assert forall|a: int, b: int| 0 <= a < b < ne.len() implies ne[a].lightness
            <= ne[b].lightness by {
            if a < p && b > p {
                assert(old_entries[a].lightness <= old_entries[b - 1].lightness);
            }
        }
        assert forall|a: int, b: int|
            0 <= a < b < ne.len() && ne[a].lightness == ne[b].lightness implies (ne[a].ch as u32) < (
            ne[b].ch as u32) by {
            if a < p && b > p {
                assert(old_entries[a].lightness <= x);
            } else if a > p {
                assert(ne[a] == old_entries[a - 1]);
                assert(ne[b] == old_entries[b - 1]);
            }
        }
    }
    p
}

/// Adds the entry of glyph `j` of `font`, whose normalized lightness is `x`.
fn add_entry(
    entries: &mut Vec<CatalogEntry>,
    font: &Font,
    j: usize,
    x: u64,
    Ghost(lo): Ghost<int>,
    Ghost(hi): Ghost<int>,
)
    requires
        font.wf(),
        j < font.glyphs@.len(),
        x <= SCALE,
        x == normalized(ink_count(font.glyphs@[j as int].cells@), lo, hi),
        entries_from_glyphs(old(entries)@, font.glyphs@, j as int, lo, hi),
        entries_wf(old(entries)@),
        forall|a: int|
            0 <= a < old(entries)@.len() ==> (#[trigger] old(entries)@[a].ch as u32) < (
            font.glyphs@[j as int].ch as u32),
    ensures
        final(entries)@.len() == old(entries)@.len() + 1,
        entries_wf(final(entries)@),
        forall|a: int|
            0 <= a < final(entries)@.len() ==> (#[trigger] final(entries)@[a].ch as u32) <= (
            font.glyphs@[j as int].ch as u32),
        entries_from_glyphs(final(entries)@, font.glyphs@, j + 1, lo, hi),
{
    let e = CatalogEntry { lightness: x, ch: font.glyphs[j].ch, cells: font.glyphs[j].cells.clone() };
    assert(e.cells@ =~= font.glyphs@[j as int].cells@);
    assert(is_glyph(font.glyphs@[j as int].cells@));
    let ghost old_entries = entries@;
    let p = insert_by_lightness(entries, e);
    assert(entries@[p as int] == e);
    assert forall|a: int| 0 <= a < entries@.len() implies (#[trigger] entries@[a].ch as u32) <= (
    font.glyphs@[j as int].ch as u32) by {
        if a < p {
            assert(entries@[a] == old_entries[a]);
        } else if a > p {
            assert(entries@[a] == old_entries[a - 1]);
        }
    }
    assert forall|a: int| #![trigger entries@[a]] 0 <= a < entries@.len() implies exists|k: int|
        0 <= k < j + 1 && entry_of(entries@[a], font.glyphs@[k], lo, hi) by {
        if a < p {
            assert(entries@[a] == old_entries[a]);
            let k = choose|k: int| 0 <= k < j && entry_of(old_entries[a], font.glyphs@[k], lo, hi);
            assert(entry_of(entries@[a], font.glyphs@[k], lo, hi));
        } else if a == p {
            reveal(entry_of);
            assert(entry_of(entries@[a], font.glyphs@[j as int], lo, hi));
        } else {
            assert(entries@[a] == old_entries[a - 1]);
            let k = choose|k: int| 0 <= k < j && entry_of(old_entries[a - 1], font.glyphs@[k], lo, hi);
            assert(entry_of(entries@[a], font.glyphs@[k], lo, hi));
        }
    }
}

impl FontSortByLightness {
    /// Entries in ascending lightness, with equal lightness in character order.
    pub open spec fn wf(&self) -> bool {
        entries_wf(self.entries@)
    }

    pub open spec fn lightnesses(&self) -> Seq<int> {
        lightness_seq(self.entries@)
    }

    /// Builds the catalog of a font: each glyph with its normalized lightness,
    /// in ascending lightness, glyphs of equal lightness in character order.
    #[verifier::rlimit(40)]
    pub fn from_font(font: &Font) -> (r: Self)
        requires
            font.wf(),
        ensures
            r.wf(),
            r.entries@.len() == font.glyphs@.len(),
            entries_from_glyphs(
                r.entries@,
                font.glyphs@,
                font.glyphs@.len() as int,
                seq_min(ink_counts(font.glyphs@)),
                seq_max(ink_counts(font.glyphs@)),
            ),
    {
        let mut counts: Vec<u64> = Vec::new();
        let mut i: usize = 0;
        while i < font.glyphs.len()
            invariant
                font.wf(),
                i <= font.glyphs@.len(),
                counts@.len() == i,
                forall|k: int| 0 <= k < i ==> #[trigger] counts@[k] == ink_count(font.glyphs@[k].cells@),
                forall|k: int| 0 <= k < i ==> #[trigger] counts@[k] <= 1000,
            decreases font.glyphs@.len() - i,
        {
            assert(is_glyph(font.glyphs@[i as int].cells@));
            let c = calc_fontarray_lightness(&font.glyphs[i].cells);
            counts.push(c);
            i = i + 1;
        }
        assert(as_ints(counts@) =~= ink_counts(font.glyphs@));
        let ls = normalize_lightness(&counts);
        let ghost lo = seq_min(ink_counts(font.glyphs@));
        let ghost hi = seq_max(ink_counts(font.glyphs@));
        let mut entries: Vec<CatalogEntry> = Vec::new();
        let mut j: usize = 0;
        while j < font.glyphs.len()
            invariant
                font.wf(),
                j <= font.glyphs@.len(),
                ls@.len() == font.glyphs@.len(),
                forall|k: int|
                    0 <= k < font.glyphs@.len() ==> #[trigger] ls@[k] == normalized(
                        ink_count(font.glyphs@[k].cells@),
                        lo,
                        hi,
                    ),
                entries_from_glyphs(entries@, font.glyphs@, j as int, lo, hi),
                forall|k: int| 0 <= k < font.glyphs@.len() ==> #[trigger] ls@[k] <= SCALE,
                entries@.len() == j,
                entries_wf(entries@),
                j < font.glyphs@.len() ==> forall|a: int|
                    0 <= a < entries@.len() ==> (#[trigger] entries@[a].ch as u32) < (
                    font.glyphs@[j as int].ch as u32),
            decreases font.glyphs@.len() - j,
        {
            add_entry(&mut entries, font, j, ls[j], Ghost(lo), Ghost(hi));
            proof {
                if j + 1 < font.glyphs@.len() {
                    assert((font.glyphs@[j as int].ch as u32) < (font.glyphs@[j + 1].ch as u32));
                }
            }
            j = j + 1;
        }
        FontSortByLightness { entries }
    }

    /// Index of the entry nearest in lightness to `l`, found by binary search.
    pub fn find_nearest_index(&self, l: u64) -> (r: usize)
        requires
            self.entries@.len() > 0,
            self.wf(),
        ensures
            r == nearest(self.lightnesses(), l as int),
            r < self.entries@.len(),
    {
        let ghost ls = self.lightnesses();
        proof {
            assert(sorted(ls));
            lemma_count_below(ls, l as int);
        }
        let n = self.entries.len();
        let mut lo: usize = 0;
        let mut hi: usize = n;
        while lo < hi
            invariant
                n == ls.len(),
                ls == self.lightnesses(),
                lo <= count_below(ls, l as int) <= hi <= n,
                forall|k: int| 0 <= k < ls.len() ==> (ls[k] < l <==> k < count_below(ls, l as int)),
            decreases hi - lo,
        {
            let mid = lo + (hi - lo) / 2;
            if self.entries[mid].lightness < l {
                assert(ls[mid as int] < l);
                lo = mid + 1;
            } else {
                assert(ls[mid as int] >= l);
                hi = mid;
            }
        }
        let p = lo;
        if p == 0 {
            0
        } else if p == n {
            n - 1
        } else {
            let below = self.entries[p - 1].lightness;
            let above = self.entries[p].lightness;
            assert(ls[p - 1] < l);
            assert(ls[p as int] >= l);
            if l - below < above - l {
                p - 1
            } else {
                p
            }
        }
    }

    /// The character and cells of the entry nearest in lightness to `l`.
    pub fn find_nearest_lightness_char(&self, l: u64) -> (r: (char, Vec<u8>))
        requires
            self.entries@.len() > 0,
            self.wf(),
        ensures
            r.0 == self.entries@[nearest(self.lightnesses(), l as int)].ch,
            r.1@ == self.entries@[nearest(self.lightnesses(), l as int)].cells@,
    {
        let i = self.find_nearest_index(l);
        let cells = self.entries[i].cells.clone();
        assert(cells@ =~= self.entries@[i as int].cells@);
        (self.entries[i].ch, cells)
    }
}

/// The catalog's lightness never decreases from one entry to the next.
pub proof fn lemma_catalog_lightness_ascending(cat: &FontSortByLightness)
    requires
        cat.wf(),
    ensures
        forall|i: int|
            0 <= i < cat.entries@.len() - 1 ==> #[trigger] cat.entries@[i].lightness <= cat.entries@[i
                + 1].lightness,
{
}

/// A target at or below the darkest entry finds the first entry; a target at
/// or above the lightest finds an entry as light as the last one.
pub proof fn lemma_nearest_clamps_to_ends(cat: &FontSortByLightness, t: int)
    requires
        cat.wf(),
        cat.entries@.len() > 0,
    ensures
        t <= cat.entries@[0].lightness ==> nearest(cat.lightnesses(), t) == 0,
        t >= cat.entries@[cat.entries@.len() - 1].lightness ==> cat.entries@[nearest(
            cat.lightnesses(),
            t,
        )].lightness == cat.entries@[cat.entries@.len() - 1].lightness,
{
    let ls = cat.lightnesses();
    let n = ls.len();
    assert(sorted(ls));
    lemma_count_below(ls, t);
    let p = count_below(ls, t);
    if t <= ls[0] {
        assert(p == 0);
    }
    if t >= ls[n - 1] {
        if p > 0 && p < n {
            assert(ls[p] >= t);
            assert(ls[p] <= ls[n - 1]);
            assert(ls[p] == t);
        }
    }
}

/// The darkest target, 0, always finds the first entry.
pub proof fn lemma_darkest_target(cat: &FontSortByLightness)
    requires
        cat.wf(),
        cat.entries@.len() > 0,
    ensures
        nearest(cat.lightnesses(), 0) == 0,
{
    lemma_nearest_clamps_to_ends(cat, 0);
}

} // verus!
