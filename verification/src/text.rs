//! The integer bookkeeping of the text renderer: where rasterized glyphs go
//! in the glyph atlas, and how the vertex buffer grows.
use vstd::prelude::*;
use vstd::arithmetic::power2::{lemma_pow2_unfold, lemma_pow2_strictly_increases, pow2};
use vstd::arithmetic::mul::lemma_mul_inequality;

verus! {

pub const ATLAS_WIDTH: u32 = 1024;

pub const ATLAS_HEIGHT: u32 = 1024;

/// Where a glyph goes in the atlas.
#[derive(PartialEq, Eq, Structural, Clone, Copy, Debug)]
pub enum Placement {
    /// The glyph has no pixels and takes no space.
    Empty,
    /// The glyph's top-left pixel is at `(x, y)`.
    At { x: u32, y: u32 },
    /// There is no room left below the current row.
    Full,
}

/// A rectangle of pixels: left, top, width, height.
pub type Region = (int, int, int, int);

/// The two rectangles share no pixel.
pub open spec fn disjoint(a: Region, b: Region) -> bool {
    a.0 + a.2 <= b.0 || b.0 + b.2 <= a.0 || a.1 + a.3 <= b.1 || b.1 + b.3 <= a.1
}

/// The two rectangles are at least one pixel apart: a gap of one pixel or
/// more separates them horizontally or vertically.
pub open spec fn apart(a: Region, b: Region) -> bool {
    a.0 + a.2 + 1 <= b.0 || b.0 + b.2 + 1 <= a.0 || a.1 + a.3 + 1 <= b.1 || b.1 + b.3 + 1 <= a.1
}

/// The rectangle lies inside the atlas.
pub open spec fn inside_atlas(r: Region) -> bool {
    0 <= r.0 && 0 <= r.1 && r.0 + r.2 <= ATLAS_WIDTH && r.1 + r.3 <= ATLAS_HEIGHT
}

/// The cursor `(x, y, row height)` once a glyph `width` pixels wide has been
/// considered: a glyph that does not fit in the current row (keeping one
/// pixel of gap) starts a new row one pixel below the tallest glyph of the
/// current one.
pub open spec fn row_for(cursor: (u32, u32, u32), width: u32) -> (int, int, int) {
    if cursor.0 + width + 1 >= ATLAS_WIDTH {
        (0, cursor.1 + cursor.2 + 1, 0)
    } else {
        (cursor.0 as int, cursor.1 as int, cursor.2 as int)
    }
}

/// Placing a `width` by `height` glyph at `cursor` stays within `u32`.
pub open spec fn placement_in_range(cursor: (u32, u32, u32), width: u32, height: u32) -> bool {
    width == 0 || height == 0 || (cursor.0 + width + 1 <= u32::MAX && row_for(cursor, width).1
        + height + 1 <= u32::MAX)
}

/// A placed rectangle lies in a finished row, or in the current row left of
/// the cursor and no taller than the row.
spec fn behind_cursor(r: Region, x: int, y: int, row_height: int) -> bool {
    r.1 + r.3 + 1 <= y || (r.1 == y && r.0 + r.2 + 1 <= x && r.3 <= row_height)
}

/// A placed rectangle ends one pixel before the atlas's bottom edge, and
/// before its right edge unless it is a glyph too wide for any row, placed
/// at the start of one.
spec fn placed_in_bounds(r: Region) -> bool {
    &&& 0 <= r.0
    &&& 0 <= r.1
    &&& r.1 + r.3 + 1 < ATLAS_HEIGHT
    &&& (r.0 + r.2 + 1 < ATLAS_WIDTH || (r.0 == 0 && r.2 + 1 >= ATLAS_WIDTH))
}

/// Glyphs are packed in rows, left to right, one pixel apart.
pub struct GlyphAtlas {
    next_x: u32,
    next_y: u32,
    row_height: u32,
    placed: Ghost<Seq<Region>>,
}

impl GlyphAtlas {
    /// The position of the next glyph in the current row, and the height of
    /// the tallest glyph in it.
    pub closed spec fn cursor(&self) -> (u32, u32, u32) {
        (self.next_x, self.next_y, self.row_height)
    }

    /// The rectangles given out so far, in order.
    pub closed spec fn regions(&self) -> Seq<Region> {
        self.placed@
    }

    pub closed spec fn wf(&self) -> bool {
        &&& forall|i: int|
            0 <= i < self.placed@.len() ==> behind_cursor(
                #[trigger] self.placed@[i],
                self.next_x as int,
                self.next_y as int,
                self.row_height as int,
            )
        &&& forall|i: int| 0 <= i < self.placed@.len() ==> placed_in_bounds(#[trigger] self.placed@[i])
        &&& forall|i: int, j: int|
            0 <= i < j < self.placed@.len() ==> apart(
                #[trigger] self.placed@[i],
                #[trigger] self.placed@[j],
            )
    }

    /// An empty atlas.
    pub fn new() -> (a: Self)
        ensures
            a.wf(),
            a.cursor() == (0u32, 0u32, 0u32),
            a.regions() == Seq::<Region>::empty(),
    {
        GlyphAtlas { next_x: 0, next_y: 0, row_height: 0, placed: Ghost(Seq::empty()) }
    }

    /// Whether placing a `width` by `height` glyph stays within `u32`.
    pub fn in_range(&self, width: u32, height: u32) -> (r: bool)
        ensures
            r == placement_in_range(self.cursor(), width, height),
    {
        if width == 0 || height == 0 {
            return true;
        }
        let x = self.next_x as u64 + width as u64 + 1;
        if x > u32::MAX as u64 {
            return false;
        }
        let y: u64 = if x >= ATLAS_WIDTH as u64 {
            self.next_y as u64 + self.row_height as u64 + 1
        } else {
            self.next_y as u64
        };
        y + height as u64 + 1 <= u32::MAX as u64
    }

    /// Finds room for a `width` by `height` glyph. A glyph without pixels
    /// takes none. Otherwise the glyph goes at the cursor, on a new row when
    /// it does not fit in the current one; when the atlas has no room below,
    /// nothing is placed, though a new row may have been started.
    pub fn place(&mut self, width: u32, height: u32) -> (r: Placement)
        requires
            old(self).wf(),
            placement_in_range(old(self).cursor(), width, height),
        ensures
            final(self).wf(),
            placed(*old(self), width, height, *final(self), r),
    {
        if width == 0 || height == 0 {
            return Placement::Empty;
        }
        if self.next_x + width + 1 >= ATLAS_WIDTH {
            self.next_x = 0;
            self.next_y = self.next_y + self.row_height + 1;
            self.row_height = 0;
        }
        if self.next_y + height + 1 >= ATLAS_HEIGHT {
            return Placement::Full;
        }
        let x = self.next_x;
        let y = self.next_y;
        let ghost before = self.placed@;
        let ghost row_height = self.row_height;
        self.next_x = x + width + 1;
        if height > self.row_height {
            self.row_height = height;
        }
        let ghost region = (x as int, y as int, width as int, height as int);
        self.placed = Ghost(self.placed@.push(region));
        proof {
            assert forall|i: int, j: int| 0 <= i < j < self.placed@.len() implies apart(
                #[trigger] self.placed@[i],
                #[trigger] self.placed@[j],
            ) by {
                if j == before.len() {
                    assert(behind_cursor(before[i], x as int, y as int, row_height as int));
                } else {
                    assert(apart(before[i], before[j]));
                }
            }
            assert forall|i: int| 0 <= i < self.placed@.len() implies behind_cursor(
                #[trigger] self.placed@[i],
                self.next_x as int,
                self.next_y as int,
                self.row_height as int,
            ) by {
                if i < before.len() {
                    assert(behind_cursor(before[i], x as int, y as int, row_height as int));
                }
            }
            assert forall|i: int| 0 <= i < self.placed@.len() implies placed_in_bounds(
                #[trigger] self.placed@[i],
            ) by {
                if i < before.len() {
                    assert(placed_in_bounds(before[i]));
                }
            }
        }
        Placement::At { x, y }
    }

    /// Rectangles given out by an atlas are at least one pixel apart, so
    /// they never overlap, and each one narrower than a row lies inside the
    /// atlas.
    pub proof fn lemma_regions_apart(&self)
        requires
            self.wf(),
        ensures
            forall|i: int, j: int|
                0 <= i < self.regions().len() && 0 <= j < self.regions().len() && i != j
                    ==> apart(#[trigger] self.regions()[i], #[trigger] self.regions()[j]),
            forall|i: int, j: int|
                0 <= i < self.regions().len() && 0 <= j < self.regions().len() && i != j
                    ==> disjoint(#[trigger] self.regions()[i], #[trigger] self.regions()[j]),
            forall|i: int|
                0 <= i < self.regions().len() && (#[trigger] self.regions()[i]).2 + 1
                    < ATLAS_WIDTH ==> inside_atlas(self.regions()[i]),
    {
        assert forall|i: int, j: int|
            0 <= i < self.regions().len() && 0 <= j < self.regions().len() && i != j implies apart(
            #[trigger] self.regions()[i],
            #[trigger] self.regions()[j],
        ) by {
            if i < j {
                assert(apart(self.placed@[i], self.placed@[j]));
            } else {
                assert(apart(self.placed@[j], self.placed@[i]));
            }
        }
        assert forall|i: int|
            0 <= i < self.regions().len() && (#[trigger] self.regions()[i]).2 + 1
                < ATLAS_WIDTH implies inside_atlas(self.regions()[i]) by {
            assert(placed_in_bounds(self.placed@[i]));
        }
    }
}

/// The placement last recorded for glyph `key` among `entries`, if any. A
/// glyph is named by its ID in the font and its size in pixels.
pub open spec fn cached_placement(entries: Seq<((u16, u8), Placement)>, key: (u16, u8)) -> Option<Placement>
    decreases entries.len(),
{
    if entries.len() == 0 {
        None
    } else if entries.last().0 == key {
        Some(entries.last().1)
    } else {
        cached_placement(entries.drop_last(), key)
    }
}

/// The glyphs that have been given room in an atlas, with where they went.
pub struct GlyphCache {
    atlas: GlyphAtlas,
    keys: Vec<(u16, u8)>,
    places: Vec<Placement>,
}

impl GlyphCache {
    pub closed spec fn atlas(&self) -> GlyphAtlas {
        self.atlas
    }

    /// Each glyph given room, with its placement, in the order they came.
    pub closed spec fn entries(&self) -> Seq<((u16, u8), Placement)> {
        Seq::new(self.keys@.len(), |i: int| (self.keys@[i], self.places@[i]))
    }

    pub closed spec fn wf(&self) -> bool {
        &&& self.atlas.wf()
        &&& self.keys@.len() == self.places@.len()
    }

    /// An empty cache over an empty atlas.
    pub fn new() -> (c: Self)
        ensures
            c.wf(),
            c.atlas().wf(),
            c.atlas().cursor() == (0u32, 0u32, 0u32),
            c.atlas().regions() == Seq::<Region>::empty(),
            c.entries() == Seq::<((u16, u8), Placement)>::empty(),
    {
        let c = GlyphCache { atlas: GlyphAtlas::new(), keys: Vec::new(), places: Vec::new() };
        proof {
            assert(c.entries() =~= Seq::<((u16, u8), Placement)>::empty());
        }
        c
    }

    /// The atlas of a well-formed cache is well formed: its regions are at
    /// least one pixel apart (see `GlyphAtlas::lemma_regions_apart`).
    pub proof fn lemma_atlas_wf(&self)
        requires
            self.wf(),
        ensures
            self.atlas().wf(),
    {
    }

    /// Where glyph `key` went, if it has been given room.
    pub fn get(&self, key: (u16, u8)) -> (r: Option<Placement>)
        requires
            self.wf(),
        ensures
            r == cached_placement(self.entries(), key),
    {
        let mut i = self.keys.len();
        proof {
            assert(self.entries().take(i as int) =~= self.entries());
        }
        while i > 0
            invariant
                self.wf(),
                i <= self.keys@.len(),
                cached_placement(self.entries(), key) == cached_placement(self.entries().take(i as int), key),
            decreases i,
        {
            let ghost prefix = self.entries().take(i as int);
            i = i - 1;
            proof {
                assert(prefix.drop_last() =~= self.entries().take(i as int));
                assert(prefix.last() == (self.keys@[i as int], self.places@[i as int]));
            }
            let k = self.keys[i];
            if k.0 == key.0 && k.1 == key.1 {
                return Some(self.places[i]);
            }
        }
        None
    }

    /// Whether giving room to a `width` by `height` glyph stays within `u32`.
    pub fn in_range(&self, width: u32, height: u32) -> (r: bool)
        ensures
            r == placement_in_range(self.atlas().cursor(), width, height),
    {
        self.atlas.in_range(width, height)
    }

    /// Gives glyph `key`, `width` by `height` pixels, room in the atlas. A
    /// glyph that has room keeps it and nothing changes; otherwise the atlas
    /// places it, and the placement is recorded unless the atlas is full. A
    /// new place is at least one pixel away from every region placed before,
    /// and lies inside the atlas when the glyph is narrower than a row.
    pub fn make_room(&mut self, key: (u16, u8), width: u32, height: u32) -> (r: Placement)
        requires
            old(self).wf(),
            cached_placement(old(self).entries(), key) is None ==> placement_in_range(
                old(self).atlas().cursor(),
                width,
                height,
            ),
        ensures
            final(self).wf(),
            final(self).atlas().wf(),
            match cached_placement(old(self).entries(), key) {
                Some(p) => {
                    &&& r == p
                    &&& final(self).atlas() == old(self).atlas()
                    &&& final(self).entries() == old(self).entries()
                },
                None => {
                    &&& placed(old(self).atlas(), width, height, final(self).atlas(), r)
                    &&& final(self).entries() == if r == Placement::Full {
                        old(self).entries()
                    } else {
                        old(self).entries().push((key, r))
                    }
                    &&& r matches Placement::At { x, y } ==> {
                        &&& forall|i: int|
                            0 <= i < old(self).atlas().regions().len() ==> apart(
                                #[trigger] old(self).atlas().regions()[i],
                                (x as int, y as int, width as int, height as int),
                            )
                        &&& width + 1 < ATLAS_WIDTH ==> inside_atlas(
                            (x as int, y as int, width as int, height as int),
                        )
                    }
                },
            },
    {
        if let Some(p) = self.get(key) {
            return p;
        }
        let ghost before_regions = self.atlas.regions();
        let r = self.atlas.place(width, height);
        proof {
            self.atlas.lemma_regions_apart();
            if let Placement::At { x, y } = r {
                let regions = self.atlas.regions();
                let n = before_regions.len() as int;
                assert(regions[n] == (x as int, y as int, width as int, height as int));
                assert forall|i: int| 0 <= i < n implies apart(
                    #[trigger] before_regions[i],
                    (x as int, y as int, width as int, height as int),
                ) by {
                    assert(regions[i] == before_regions[i]);
                    assert(apart(regions[i], regions[n]));
                }
            }
        }
        match r {
            Placement::Full => {},
            _ => {
                let ghost before = self.entries();
                self.keys.push(key);
                self.places.push(r);
                proof {
                    assert(self.entries() =~= before.push((key, r)));
                }
            },
        }
        r
    }
}

/// What finding room for a `width` by `height` glyph does to an atlas that
/// was `before`: a glyph without pixels takes none; otherwise the glyph goes
/// at the cursor, on a new row when it does not fit in the current one
/// (keeping one pixel of gap), and when the atlas has no room below, nothing
/// is placed, though the new row stays started.
pub open spec fn placed(before: GlyphAtlas, width: u32, height: u32, after: GlyphAtlas, r: Placement) -> bool {
    if width == 0 || height == 0 {
        &&& r == Placement::Empty
        &&& after.cursor() == before.cursor()
        &&& after.regions() == before.regions()
    } else {
        let (x, y, h) = row_for(before.cursor(), width);
        if y + height + 1 >= ATLAS_HEIGHT {
            &&& r == Placement::Full
            &&& after.cursor() == (x as u32, y as u32, h as u32)
            &&& after.regions() == before.regions()
        } else {
            &&& r == Placement::At { x: x as u32, y: y as u32 }
            &&& after.cursor() == ((x + width + 1) as u32, y as u32, if height > h {
                height
            } else {
                h as u32
            })
            &&& after.regions() == before.regions().push((x, y, width as int, height as int))
        }
    }
}

/// A capacity `base` doubled `k` times.
pub open spec fn doubled(base: nat, k: nat) -> nat {
    base * pow2(k)
}

/// The capacity that doubling starts from: `current`, or 1 when it is 0.
pub open spec fn capacity_base(current: nat) -> nat {
    if current == 0 {
        1
    } else {
        current
    }
}

/// The capacity to grow to: `current` itself when it holds `needed`
/// vertices, else the least doubling of `current` (of 1 when it is 0) that
/// does.
pub open spec fn is_grown_capacity(current: nat, needed: nat, r: nat) -> bool {
    if needed <= current {
        r == current
    } else {
        let base = capacity_base(current);
        exists|k: nat|
            r == #[trigger] doubled(base, k) && r >= needed && (k == 0 || doubled(base, (k - 1) as nat)
                < needed)
    }
}

proof fn lemma_doubled_step(base: nat, k: nat)
    ensures
        doubled(base, k + 1) == 2 * doubled(base, k),
{
    lemma_pow2_unfold(k + 1);
    assert(base * (2 * pow2(k)) == 2 * (base * pow2(k))) by (nonlinear_arith);
}

proof fn lemma_doubled_grows(base: nat, k: nat, j: nat)
    requires
        k < j,
    ensures
        doubled(base, k) <= doubled(base, j),
{
    lemma_pow2_strictly_increases(k, j);
    lemma_mul_inequality(pow2(k) as int, pow2(j) as int, base as int);
    assert(pow2(k) * base == base * pow2(k)) by (nonlinear_arith);
    assert(pow2(j) * base == base * pow2(j)) by (nonlinear_arith);
}

/// Growing `current` to hold `needed` vertices stays within `usize`.
pub open spec fn growth_in_range(current: nat, needed: nat) -> bool {
    needed <= current || exists|k: nat|
        #[trigger] doubled(capacity_base(current), k) >= needed && doubled(capacity_base(current), k)
            <= usize::MAX
}

/// Whether growing `current` to hold `needed` vertices stays within `usize`.
pub fn can_grow(current: usize, needed: usize) -> (r: bool)
    ensures
        r == growth_in_range(current as nat, needed as nat),
{
    if needed <= current {
        return true;
    }
    let base: usize = if current == 0 {
        1
    } else {
        current
    };
    let mut c = base;
    let ghost mut k: nat = 0;
    proof {
        assert(pow2(0) == 1) by {
            vstd::arithmetic::power2::lemma2_to64();
        }
        assert(doubled(base as nat, 0) == base);
    }
    while c < needed
        invariant
            base > 0,
            base == capacity_base(current as nat),
            c == doubled(base as nat, k),
            forall|j: nat| j < k ==> #[trigger] doubled(base as nat, j) < needed,
            c > 0,
            needed > current,
        decreases usize::MAX - c,
    {
        proof {
            lemma_doubled_step(base as nat, k);
            assert forall|j: nat| j < k + 1 implies #[trigger] doubled(base as nat, j) < needed by {
                if j < k {
                } else {
                }
            }
        }
        if c > usize::MAX / 2 {
            proof {
                assert forall|j: nat| #[trigger]
                    doubled(capacity_base(current as nat), j) >= needed implies doubled(
                    capacity_base(current as nat),
                    j,
                ) > usize::MAX by {
                    if j > k + 1 {
                        lemma_doubled_grows(base as nat, k + 1, j);
                    } else if j == k {
                    } else if j < k {
                        assert(doubled(base as nat, j) < needed);
                    }
                }
                assert(!growth_in_range(current as nat, needed as nat));
            }
            return false;
        }
        c = c * 2;
        proof {
            k = k + 1;
        }
    }
    true
}

/// The vertex capacity after making room for `needed` vertices: unchanged
/// when it suffices, else doubled until it does. The doubling must stay
/// within `usize`.
pub fn grown_capacity(current: usize, needed: usize) -> (r: usize)
    requires
        growth_in_range(current as nat, needed as nat),
    ensures
        is_grown_capacity(current as nat, needed as nat, r as nat),
{
    if needed <= current {
        return current;
    }
    let base: usize = if current == 0 {
        1
    } else {
        current
    };
    let ghost bound = choose|k: nat| doubled(base as nat, k) >= needed && #[trigger] doubled(base as nat, k)
        <= usize::MAX;
    let mut c = base;
    let ghost mut k: nat = 0;
    proof {
        assert(pow2(0) == 1) by {
            vstd::arithmetic::power2::lemma2_to64();
        }
        assert(doubled(base as nat, 0) == base);
    }
    while c < needed
        invariant
            base > 0,
            c == doubled(base as nat, k),
            k == 0 || doubled(base as nat, (k - 1) as nat) < needed,
            doubled(base as nat, bound) >= needed,
            doubled(base as nat, bound) <= usize::MAX,
        decreases bound - k,
    {
        proof {
            lemma_doubled_step(base as nat, k);
            if bound <= k {
                if bound < k {
                    lemma_doubled_grows(base as nat, bound, k);
                }
                assert(false);
            }
            if k + 1 < bound {
                lemma_doubled_grows(base as nat, k + 1, bound);
            }
            assert(c > 0) by {
                assert(pow2(k) > 0) by {
                    vstd::arithmetic::power2::lemma_pow2_pos(k);
                }
                assert(base * pow2(k) > 0) by (nonlinear_arith)
                    requires
                        base > 0,
                        pow2(k) > 0,
                ;
            }
        }
        c = c * 2;
        proof {
            k = k + 1;
        }
    }
    c
}

} // verus!
