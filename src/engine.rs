//! The placement engine: a toroidal grid that every color base fills exactly
//! once, in a shuffled processing order. The first colors are seeded at random
//! open cells; each later one grows from the cell of its nearest placed
//! neighbor in color space along a walk whose positions the caller supplies,
//! and falls back to a random open cell when the walk's step budget runs out.

use vstd::prelude::*;
use rand::rngs::StdRng;
use crate::color::{
    all_variants, base_of_index, code_of, color_base_to_color, color_size_of,
    lemma_base_of_index_valid, lemma_code_of_base, make_bases, make_offsets, scaled, sign_variant,
    sorted_by_magnitude, valid_base, ColorBase, ColorOffset, MAX_SCALE,
};
use crate::open_set::OpenSet;
use crate::rng::shuffle_bases;

verus! {

broadcast use vstd::seq_lib::group_to_multiset_ensures;

/// A grid cell.
#[derive(Clone, Copy, Debug, PartialEq, Eq, Structural)]
pub struct Location {
    pub row: usize,
    pub col: usize,
}

/// Why a set of run parameters is refused.
#[derive(Clone, Copy, Debug, PartialEq, Eq, Structural)]
pub enum ConfigError {
    /// The scale is below 2.
    ScaleTooSmall,
    /// The scale is above `MAX_SCALE`, so components would not fit a byte.
    ScaleTooLarge,
    /// No color would be seeded, so growth would have nothing to start from.
    NoSeeds,
    /// Seeds must leave at least one color to grow: `num_seeds < scale^6`.
    TooManySeeds,
    /// The walk budget factor must be positive.
    ZeroCycleCap,
    /// `cycle_cap * scale^3` does not fit a `usize`.
    CycleCapTooLarge,
}

/// Number of cells on each side of the grid.
pub open spec fn side_of(scale: int) -> int {
    scale * scale * scale
}

/// The error a parameter tuple is refused with, if any, tested in this order.
pub open spec fn config_error(scale: u64, num_seeds: usize, cycle_cap: usize) -> Option<
    ConfigError,
> {
    if scale < 2 {
        Some(ConfigError::ScaleTooSmall)
    } else if scale > MAX_SCALE {
        Some(ConfigError::ScaleTooLarge)
    } else if num_seeds == 0 {
        Some(ConfigError::NoSeeds)
    } else if num_seeds >= side_of(scale as int) * side_of(scale as int) {
        Some(ConfigError::TooManySeeds)
    } else if cycle_cap == 0 {
        Some(ConfigError::ZeroCycleCap)
    } else if cycle_cap * side_of(scale as int) > usize::MAX {
        Some(ConfigError::CycleCapTooLarge)
    } else {
        None
    }
}

/// The cell with flat index `c` on a grid of side `size`.
pub open spec fn loc_of(c: int, size: int) -> Location {
    Location { row: (c / size) as usize, col: (c % size) as usize }
}

/// The flat index of a cell.
pub open spec fn cell_of(loc: Location, size: int) -> int {
    loc.row * size + loc.col
}

/// `v` wrapped onto `[0, size)`, also for negative `v`.
pub fn wrap(v: i64, size: usize) -> (r: usize)
    requires
        0 < size <= i64::MAX,
    ensures
        r as int == v as int % size as int,
{
    let m = v.checked_rem_euclid(size as i64);
    match m {
        Some(x) => x as usize,
        None => 0,
    }
}

/// The color `cb + o`, when each of its components lies in `[0, cs)`.
pub open spec fn probe(cb: ColorBase, o: ColorOffset, cs: int) -> Option<ColorBase> {
    let (r, g, b) = (cb.r + o.dr, cb.g + o.dg, cb.b + o.db);
    if 0 <= r < cs && 0 <= g < cs && 0 <= b < cs {
        Some(ColorBase { r: r as u8, g: g as u8, b: b as u8 })
    } else {
        None
    }
}

/// Whether every component of `o` lies strictly between `-cs` and `cs`.
pub open spec fn offset_in_range(o: ColorOffset, cs: int) -> bool {
    -cs < o.dr < cs && -cs < o.dg < cs && -cs < o.db < cs
}

/// Every offset in range is among the sign variants of the bases of scale `cs`.
proof fn lemma_offsets_complete(bases: Seq<ColorBase>, offs: Seq<ColorOffset>, cs: int)
    requires
        2 <= cs <= 256,
        bases.len() == cs * cs * cs,
        forall|i: int| 0 <= i < bases.len() ==> #[trigger] bases[i] == base_of_index(i, cs),
        offs.to_multiset() == all_variants(bases).to_multiset(),
    ensures
        forall|o: ColorOffset| offset_in_range(o, cs) ==> #[trigger] offs.contains(o),
{
    assert forall|o: ColorOffset| offset_in_range(o, cs) implies #[trigger] offs.contains(o) by {
        let ab = |x: i16| if x < 0 { -(x as int) } else { x as int };
        let cb = ColorBase { r: ab(o.dr) as u8, g: ab(o.dg) as u8, b: ab(o.db) as u8 };
        lemma_code_of_base(cb, cs);
        let i = code_of(cb, cs);
        let k = (if o.dr < 0 { 4int } else { 0 }) + (if o.dg < 0 { 2int } else { 0 }) + (if o.db < 0 {
            1int
        } else {
            0
        });
        let all = all_variants(bases);
        assert((8 * i + k) / 8 == i && (8 * i + k) % 8 == k);
        assert(k / 4 % 2 == (if o.dr < 0 { 1int } else { 0 }));
        assert(k / 2 % 2 == (if o.dg < 0 { 1int } else { 0 }));
        assert(k % 2 == (if o.db < 0 { 1int } else { 0 }));
        assert(all[8 * i + k] == sign_variant(cb, k));
        assert(all[8 * i + k] == o);
        assert(all.contains(o));
        vstd::seq_lib::to_multiset_contains(all, o);
        vstd::seq_lib::to_multiset_contains(offs, o);
    }
}

/// A cell's flat index and its location determine each other.
proof fn lemma_cell_loc(c: int, size: int)
    requires
        0 < size <= 4096,
        0 <= c < size * size,
    ensures
        cell_of(loc_of(c, size), size) == c,
        loc_of(c, size).row < size,
        loc_of(c, size).col < size,
{
    vstd::arithmetic::div_mod::lemma_fundamental_div_mod(c, size);
    vstd::arithmetic::div_mod::lemma_multiply_divide_lt(c, size, size);
    vstd::arithmetic::div_mod::lemma_div_pos_is_pos(c, size);
    assert(c == (c / size) * size + c % size) by (nonlinear_arith)
        requires
            c == size * (c / size) + c % size,
    ;
}

/// A location inside the grid has a flat index inside the grid, and comes back from it.
proof fn lemma_loc_cell(row: int, col: int, size: int)
    requires
        0 <= row < size,
        0 <= col < size,
    ensures
        0 <= row * size + col < size * size,
        loc_of(row * size + col, size) == (Location { row: row as usize, col: col as usize }),
{
    assert(0 <= row * size + col < size * size) by (nonlinear_arith)
        requires
            0 <= row < size,
            0 <= col < size,
    ;
    vstd::arithmetic::div_mod::lemma_fundamental_div_mod_converse(row * size + col, size, row, col);
}

/// Whether `new` is `old` with its next color placed at the empty cell `loc`.
pub open spec fn placed_next_at(old: &Engine, new: &Engine, loc: Location) -> bool {
    let c = cell_of(loc, old.side());
    &&& loc.row < old.side() && loc.col < old.side()
    &&& old.grid_view()[c] is None
    &&& new.grid_view() == old.grid_view().update(c, Some(old.order_view()[old.placed_count()]))
    &&& new.placed_count() == old.placed_count() + 1
    &&& !new.is_walking()
}

/// Whether `new` is `old`, its grid and progress untouched.
pub open spec fn unchanged_grid(old: &Engine, new: &Engine) -> bool {
    &&& new.grid_view() == old.grid_view()
    &&& new.placed_count() == old.placed_count()
}

/// A bound on the calls of `next_action` and `walk_step` still to come
/// before `Done`: every call that does not answer `Done` lowers it.
pub open spec fn work_left(e: &Engine) -> int {
    (e.total() - e.placed_count()) * (e.walk_budget() + 1) - (if e.is_walking() {
        e.steps_taken_view() + 1
    } else {
        0
    })
}

/// What the caller does next.
#[derive(Clone, Copy, Debug, PartialEq, Eq, Structural)]
pub enum Action {
    /// The color was placed at a random open cell: draw it a fresh heading.
    Seeded(Location),
    /// Walk from this cell with the heading recorded there, and hand each
    /// position reached to `walk_step`.
    Walk(Location),
    /// Every color is placed.
    Done,
}

/// What one step of a walk came to.
#[derive(Clone, Copy, Debug, PartialEq, Eq, Structural)]
pub enum StepOutcome {
    /// The color was placed at the cell the walk reached: record the walk's
    /// current heading there.
    Placed(Location),
    /// The cell was taken: take another step.
    Continue,
    /// The step budget ran out and the color was placed at a random open
    /// cell: draw it a fresh heading.
    FellBack(Location),
}

/// The state of one run.
pub struct Engine {
    scale: u64,
    cs: u64,
    size: usize,
    cells: usize,
    num_seeds: usize,
    walk_steps: usize,
    order: Vec<ColorBase>,
    offsets: Vec<ColorOffset>,
    grid: Vec<Option<ColorBase>>,
    placed_at: Vec<Option<usize>>,
    open: OpenSet,
    next: usize,
    walking: bool,
    steps_taken: usize,
}

impl Engine {
    /// The grid, cell `loc` at flat index `loc.row * side() + loc.col`.
    pub closed spec fn grid_view(&self) -> Seq<Option<ColorBase>> {
        self.grid@
    }

    /// Cells on each side of the grid.
    pub closed spec fn side(&self) -> int {
        self.size as int
    }

    /// Values a color component can take.
    pub closed spec fn color_size(&self) -> int {
        self.cs as int
    }

    /// Number of cells, which is also the number of colors.
    pub closed spec fn total(&self) -> int {
        self.cells as int
    }

    /// The colors in processing order.
    pub closed spec fn order_view(&self) -> Seq<ColorBase> {
        self.order@
    }

    /// How many colors, from the start of the processing order, are placed.
    pub closed spec fn placed_count(&self) -> int {
        self.next as int
    }

    /// Whether a walk is under way for the next color.
    pub closed spec fn is_walking(&self) -> bool {
        self.walking
    }

    /// Steps a walk may take before it falls back.
    pub closed spec fn walk_budget(&self) -> int {
        self.walk_steps as int
    }

    /// Steps the current walk has taken.
    pub closed spec fn steps_taken_view(&self) -> int {
        self.steps_taken as int
    }

    /// Colors seeded at random before growth begins.
    pub closed spec fn seeds(&self) -> int {
        self.num_seeds as int
    }

    /// The probe offsets, ascending by squared magnitude.
    pub closed spec fn offsets_view(&self) -> Seq<ColorOffset> {
        self.offsets@
    }

    /// Where the placed color `t` sits.
    pub closed spec fn location_of(&self, t: ColorBase) -> Location {
        loc_of(self.placed_at@[code_of(t, self.cs as int)].unwrap() as int, self.size as int)
    }

    /// Whether `loc` is where the first probe offset that reaches a placed
    /// color leads from `cb`.
    pub open spec fn is_nearest(&self, cb: ColorBase, loc: Location) -> bool {
        exists|k: int|
            0 <= k < self.offsets_view().len() && #[trigger] self.hits(cb, self.offsets_view()[k])
                && (forall|j: int| 0 <= j < k ==> !self.hits(cb, self.offsets_view()[j])) && loc
                == self.location_of(probe(cb, self.offsets_view()[k], self.color_size()).unwrap())
    }

    /// Same parameters, processing order and probe offsets.
    pub closed spec fn same_run(&self, other: &Engine) -> bool {
        &&& self.scale == other.scale
        &&& self.cs == other.cs
        &&& self.size == other.size
        &&& self.cells == other.cells
        &&& self.num_seeds == other.num_seeds
        &&& self.walk_steps == other.walk_steps
        &&& self.order@ == other.order@
        &&& self.offsets@ == other.offsets@
    }

    /// Whether `cb + o` is a color that is already placed.
    pub closed spec fn hits(&self, cb: ColorBase, o: ColorOffset) -> bool {
        probe(cb, o, self.cs as int) matches Some(t) && self.placed_at@[code_of(
            t,
            self.cs as int,
        )] is Some
    }

    /// Everything but the link between the open cells and the grid.
    closed spec fn wf_tables(&self) -> bool {
        let (n, cs) = (self.cells as int, self.cs as int);
        &&& 2 <= self.scale <= MAX_SCALE
        &&& cs == color_size_of(self.scale as int)
        &&& 2 <= cs <= 256
        &&& 8 <= self.size <= 4096
        &&& self.size == side_of(self.scale as int)
        &&& n == self.size * self.size
        &&& n == cs * cs * cs
        &&& 1 <= self.num_seeds < n
        &&& 1 <= self.walk_steps < usize::MAX
        &&& self.grid@.len() == n
        &&& self.placed_at@.len() == n
        &&& self.order@.len() == n
        &&& self.order@.no_duplicates()
        &&& forall|i: int| 0 <= i < n ==> valid_base(#[trigger] self.order@[i], cs)
        &&& forall|cb: ColorBase| valid_base(cb, cs) ==> #[trigger] self.order@.contains(cb)
        &&& forall|o: ColorOffset| offset_in_range(o, cs) ==> #[trigger] self.offsets@.contains(o)
        &&& forall|c: int|
            0 <= c < n ==> (#[trigger] self.grid@[c] matches Some(cb) ==> valid_base(cb, cs)
                && self.placed_at@[code_of(cb, cs)] == Some(c as usize))
        &&& forall|k: int|
            0 <= k < n ==> (#[trigger] self.placed_at@[k] matches Some(c) ==> c < n
                && self.grid@[c as int] == Some(base_of_index(k, cs)))
        &&& self.open.wf()
        &&& self.open.capacity() == n
    }

    /// The invariant of a run.
    pub closed spec fn wf(&self) -> bool {
        let (n, cs) = (self.cells as int, self.cs as int);
        &&& self.wf_tables()
        &&& self.next <= n
        &&& forall|i: int|
            0 <= i < n ==> (self.placed_at@[code_of(#[trigger] self.order@[i], cs)] is Some <==> i
                < self.next)
        &&& forall|c: usize| c < n ==> (#[trigger] self.open@.contains(c) <==> self.grid@[c as int] is None)
        &&& self.open.size() == n - self.next
        &&& self.walking ==> self.next < n && self.next >= self.num_seeds && self.steps_taken
            < self.walk_steps
    }

    /// Checks the parameters, enumerates the colors and the probe offsets,
    /// shuffles the colors into processing order, and starts with an empty grid.
    pub fn new(scale: u64, num_seeds: usize, cycle_cap: usize, rng: &mut StdRng) -> (r: Result<
        Engine,
        ConfigError,
    >)
        ensures
            config_error(scale, num_seeds, cycle_cap) matches Some(e) ==> r == Err::<Engine, ConfigError>(e),
            config_error(scale, num_seeds, cycle_cap) is None ==> (r matches Ok(eng) && {
                &&& eng.wf()
                &&& eng.side() == side_of(scale as int)
                &&& eng.total() == side_of(scale as int) * side_of(scale as int)
                &&& eng.color_size() == color_size_of(scale as int)
                &&& eng.seeds() == num_seeds
                &&& eng.walk_budget() == cycle_cap * side_of(scale as int) - 1
                &&& eng.placed_count() == 0
                &&& !eng.is_walking()
                &&& eng.order_view().len() == eng.total()
                &&& eng.order_view().no_duplicates()
                &&& forall|cb: ColorBase|
                    valid_base(cb, eng.color_size()) ==> #[trigger] eng.order_view().contains(cb)
                &&& eng.offsets_view().to_multiset() == all_variants(
                    Seq::new(eng.total() as nat, |i: int| base_of_index(i, eng.color_size())),
                ).to_multiset()
                &&& sorted_by_magnitude(eng.offsets_view())
                &&& forall|c: int| 0 <= c < eng.total() ==> #[trigger] eng.grid_view()[c] is None
            }),
    {
        if scale < 2 {
            return Err(ConfigError::ScaleTooSmall);
        }
        if scale > MAX_SCALE {
            return Err(ConfigError::ScaleTooLarge);
        }
        assert(4 <= scale * scale <= 256 && 8 <= scale * scale * scale <= 4096) by (nonlinear_arith)
            requires
                2 <= scale <= 16,
        ;
        let cs: u64 = scale * scale;
        let side: u64 = cs * scale;
        assert(side * side == cs * cs * cs && side * side <= 4096 * 4096) by (nonlinear_arith)
            requires
                cs == scale * scale,
                side == cs * scale,
                side <= 4096,
        ;
        let size = side as usize;
        let cells: usize = size * size;
        if num_seeds == 0 {
            return Err(ConfigError::NoSeeds);
        }
        if num_seeds >= cells {
            return Err(ConfigError::TooManySeeds);
        }
        if cycle_cap == 0 {
            return Err(ConfigError::ZeroCycleCap);
        }
        let budget = match cycle_cap.checked_mul(size) {
            Some(b) => b,
            None => {
                return Err(ConfigError::CycleCapTooLarge);
            },
        };
        assert(budget >= 8) by (nonlinear_arith)
            requires
                budget == cycle_cap * size,
                cycle_cap >= 1,
                size >= 8,
        ;
        let mut order = make_bases(scale);
        let offsets = make_offsets(&order);
        assert(order@ =~= Seq::new(cells as nat, |i: int| base_of_index(i, cs as int)));
        proof {
            let (bases, ci) = (order@, cs as int);
            lemma_offsets_complete(bases, offsets@, ci);
            assert forall|i: int, j: int|
                0 <= i < bases.len() && 0 <= j < bases.len() && i != j implies bases[i]
                != bases[j] by {
                lemma_base_of_index_valid(i, ci);
                lemma_base_of_index_valid(j, ci);
            }
            assert(bases.no_duplicates());
            bases.lemma_multiset_has_no_duplicates();
            assert forall|cb: ColorBase| valid_base(cb, ci) implies #[trigger] bases.to_multiset().count(cb) > 0 by {
                lemma_code_of_base(cb, ci);
                assert(bases[code_of(cb, ci)] == cb);
                vstd::seq_lib::to_multiset_contains(bases, cb);
            }
            assert forall|cb: ColorBase| #[trigger] bases.to_multiset().count(cb) > 0 implies valid_base(cb, ci) by {
                vstd::seq_lib::to_multiset_contains(bases, cb);
                let i = choose|i: int| 0 <= i < bases.len() && bases[i] == cb;
                lemma_base_of_index_valid(i, ci);
            }
        }
        shuffle_bases(&mut order, rng);
        proof {
            let ci = cs as int;
            order@.lemma_multiset_has_no_duplicates_conv();
            assert forall|cb: ColorBase| valid_base(cb, ci) implies #[trigger] order@.contains(cb) by {
                vstd::seq_lib::to_multiset_contains(order@, cb);
            }
            assert forall|i: int| 0 <= i < cells implies valid_base(#[trigger] order@[i], ci) by {
                vstd::seq_lib::to_multiset_contains(order@, order@[i]);
            }
        }
        let mut grid: Vec<Option<ColorBase>> = Vec::new();
        let mut placed_at: Vec<Option<usize>> = Vec::new();
        let mut i: usize = 0;
        while i < cells
            invariant
                i <= cells,
                grid@.len() == i,
                placed_at@.len() == i,
                forall|k: int| 0 <= k < i ==> #[trigger] grid@[k] is None,
                forall|k: int| 0 <= k < i ==> #[trigger] placed_at@[k] is None,
            decreases cells - i,
        {
            grid.push(None);
            placed_at.push(None);
            i = i + 1;
        }
        let open = OpenSet::new_full(cells);
        let eng = Engine {
            scale,
            cs,
            size,
            cells,
            num_seeds,
            walk_steps: budget - 1,
            order,
            offsets,
            grid,
            placed_at,
            open,
            next: 0,
            walking: false,
            steps_taken: 0,
        };
        proof {
            assert forall|i: int| 0 <= i < cells implies (eng.placed_at@[code_of(
                #[trigger] eng.order@[i],
                cs as int,
            )] is Some <==> i < 0) by {
                lemma_code_of_base(eng.order@[i], cs as int);
            }
        }
        Ok(eng)
    }

    /// Once a color is placed, some probe offset leads from `cb` to a placed color.
    proof fn lemma_some_hit(&self, cb: ColorBase)
        requires
            self.wf(),
            valid_base(cb, self.cs as int),
            self.next >= 1,
        ensures
            exists|j: int| 0 <= j < self.offsets@.len() && #[trigger] self.hits(cb, self.offsets@[j]),
    {
        let t = self.order@[0];
        assert(valid_base(t, self.cs as int));
        let o = ColorOffset {
            dr: (t.r - cb.r) as i16,
            dg: (t.g - cb.g) as i16,
            db: (t.b - cb.b) as i16,
        };
        assert(offset_in_range(o, self.cs as int));
        assert(self.offsets@.contains(o));
        let j = choose|j: int| 0 <= j < self.offsets@.len() && self.offsets@[j] == o;
        assert(probe(cb, o, self.cs as int) == Some(t));
        lemma_code_of_base(t, self.cs as int);
        assert(self.hits(cb, self.offsets@[j]));
    }

    /// The mixed-radix index of a valid color.
    fn code(&self, cb: ColorBase) -> (k: usize)
        requires
            self.wf_tables(),
            valid_base(cb, self.cs as int),
        ensures
            k == code_of(cb, self.cs as int),
            k < self.cells,
    {
        proof {
            lemma_code_of_base(cb, self.cs as int);
        }
        let cs = self.cs as usize;
        let (r, g, b) = (cb.r as usize, cb.g as usize, cb.b as usize);
        assert(cs * g < cs * cs && cs * cs <= 65536 && cs * cs * b < cs * cs * cs) by (nonlinear_arith)
            requires
                g < cs,
                b < cs,
                2 <= cs <= 256,
        ;
        r + cs * g + cs * cs * b
    }

    /// Finds the location of the placed color that the first probe offset
    /// leading from `cb` to a placed color reaches. Once any color is placed,
    /// there is one.
    pub fn nearest_placed(&self, cb: ColorBase) -> (r: Option<Location>)
        requires
            self.wf(),
            valid_base(cb, self.color_size()),
        ensures
            r is None <==> forall|k: int|
                0 <= k < self.offsets_view().len() ==> !#[trigger] self.hits(cb, self.offsets_view()[k]),
            r matches Some(loc) ==> self.is_nearest(cb, loc),
            self.placed_count() >= 1 ==> r is Some,
    {
        let cs = self.cs as i32;
        let mut k: usize = 0;
        while k < self.offsets.len()
            invariant
                self.wf(),
                valid_base(cb, self.cs as int),
                cs == self.cs,
                k <= self.offsets@.len(),
                forall|j: int| 0 <= j < k ==> !#[trigger] self.hits(cb, self.offsets@[j]),
            decreases self.offsets@.len() - k,
        {
            let o = self.offsets[k];
            let r = cb.r as i32 + o.dr as i32;
            let g = cb.g as i32 + o.dg as i32;
            let b = cb.b as i32 + o.db as i32;
            if 0 <= r && r < cs && 0 <= g && g < cs && 0 <= b && b < cs {
                let t = ColorBase { r: r as u8, g: g as u8, b: b as u8 };
                assert(probe(cb, o, self.cs as int) == Some(t));
                let code = self.code(t);
                match self.placed_at[code] {
                    Some(c) => {
                        proof {
                            lemma_cell_loc(c as int, self.size as int);
                        }
                        let loc = Location { row: c / self.size, col: c % self.size };
                        assert(self.hits(cb, self.offsets_view()[k as int]));
                        assert(loc == self.location_of(t));
                        return Some(loc);
                    },
                    None => {},
                }
            }
            k = k + 1;
        }
        proof {
            if self.next >= 1 {
                self.lemma_some_hit(cb);
            }
        }
        None
    }

    /// Places the next color of the processing order at the empty cell `c`,
    /// which the open set no longer holds.
    fn commit(&mut self, c: usize)
        requires
            old(self).wf_tables(),
            old(self).next < old(self).cells,
            c < old(self).cells,
            old(self).grid@[c as int] is None,
            forall|i: int|
                0 <= i < old(self).cells ==> (old(self).placed_at@[code_of(
                    #[trigger] old(self).order@[i],
                    old(self).cs as int,
                )] is Some <==> i < old(self).next),
            forall|x: usize|
                x < old(self).cells ==> (#[trigger] old(self).open@.contains(x) <==> old(
                    self,
                ).grid@[x as int] is None && x != c),
            old(self).open.size() == old(self).cells - old(self).next - 1,
        ensures
            final(self).wf(),
            final(self).same_run(old(self)),
            final(self).next == old(self).next + 1,
            !final(self).walking,
            final(self).grid@ == old(self).grid@.update(c as int, Some(old(self).order@[old(self).next as int])),
    {
        let cb = self.order[self.next];
        let k = self.code(cb);
        let ghost o = *self;
        proof {
            lemma_code_of_base(cb, self.cs as int);
        }
        self.grid.set(c, Some(cb));
        self.placed_at.set(k, Some(c));
        self.next = self.next + 1;
        self.walking = false;
        self.steps_taken = 0;
        proof {
            let cs = self.cs as int;
            let n = self.cells as int;
            assert(o.placed_at@[k as int] is None);
            assert forall|c2: int| 0 <= c2 < n implies (#[trigger] self.grid@[c2] matches Some(cb2)
                ==> valid_base(cb2, cs) && self.placed_at@[code_of(cb2, cs)] == Some(c2 as usize)) by {
                if c2 != c {
                    if let Some(cb2) = o.grid@[c2] {
                        assert(o.placed_at@[code_of(cb2, cs)] == Some(c2 as usize));
                        lemma_code_of_base(cb2, cs);
                        assert(code_of(cb2, cs) != k);
                    }
                } else {
                    assert(valid_base(o.order@[o.next as int], cs));
                    assert(self.grid@[c2] == Some(cb));
                    assert(self.placed_at@[k as int] == Some(c));
                }
            }
            assert forall|k2: int| 0 <= k2 < n implies (#[trigger] self.placed_at@[k2] matches Some(
                c2,
            ) ==> c2 < n && self.grid@[c2 as int] == Some(base_of_index(k2, cs))) by {
                if k2 != k {
                    if let Some(c2) = o.placed_at@[k2] {
                        assert(o.grid@[c2 as int] == Some(base_of_index(k2, cs)));
                    }
                }
            }
            assert forall|i: int| 0 <= i < n implies (self.placed_at@[code_of(
                #[trigger] self.order@[i],
                cs,
            )] is Some <==> i < self.next) by {
                lemma_code_of_base(self.order@[i], cs);
                if i != o.next {
                    assert(self.order@[i] != cb);
                    assert(base_of_index(code_of(self.order@[i], cs), cs) == self.order@[i]);
                }
            }
        }
    }

    /// Places the next color at an open cell drawn uniformly at random.
    fn place_random(&mut self, rng: &mut StdRng) -> (loc: Location)
        requires
            old(self).wf(),
            old(self).next < old(self).cells,
        ensures
            final(self).wf(),
            final(self).same_run(old(self)),
            placed_next_at(old(self), final(self), loc),
    {
        let ghost o = *self;
        let r = self.open.remove_random(rng);
        let c = r.unwrap();
        proof {
            assert(o.open@.contains(c));
            lemma_cell_loc(c as int, self.size as int);
            assert forall|x: usize| x < self.cells implies (#[trigger] self.open@.contains(x) <==> self.grid@[x as int] is None && x != c) by {
                assert(o.open@.contains(x) <==> o.grid@[x as int] is None);
            }
        }
        self.commit(c);
        let loc = Location { row: c / self.size, col: c % self.size };
        proof {
            lemma_cell_loc(c as int, self.size as int);
        }
        loc
    }

    /// Decides the step for the next color in processing order: seed it at a
    /// random open cell while fewer than `seeds()` colors are placed, else
    /// start a walk from the cell of its nearest placed color.
    pub fn next_action(&mut self, rng: &mut StdRng) -> (a: Action)
        requires
            old(self).wf(),
            !old(self).is_walking(),
        ensures
            final(self).wf(),
            final(self).same_run(old(self)),
            old(self).placed_count() == old(self).total() ==> a == Action::Done && unchanged_grid(
                old(self),
                final(self),
            ) && !final(self).is_walking(),
            old(self).placed_count() < old(self).seeds() ==> (a matches Action::Seeded(loc)
                && placed_next_at(old(self), final(self), loc)),
            a != Action::Done ==> 0 <= work_left(final(self)) < work_left(old(self)),
            old(self).seeds() <= old(self).placed_count() < old(self).total() ==> (a matches Action::Walk(loc)
                && old(self).is_nearest(old(self).order_view()[old(self).placed_count()], loc)
                && unchanged_grid(old(self), final(self)) && final(self).is_walking()
                && final(self).steps_taken_view() == 0),
    {
        if self.next == self.cells {
            return Action::Done;
        }
        proof {
            let (t, p, b) = (self.cells as int, self.next as int, self.walk_steps as int);
            assert((t - p) * (b + 1) == (t - p - 1) * (b + 1) + b + 1) by (nonlinear_arith);
            assert((t - p - 1) * (b + 1) >= 0) by (nonlinear_arith)
                requires
                    p < t,
                    b >= 0,
            ;
        }
        if self.next < self.num_seeds {
            let loc = self.place_random(rng);
            return Action::Seeded(loc);
        }
        let cb = self.order[self.next];
        let found = self.nearest_placed(cb);
        let loc = found.unwrap();
        self.walking = true;
        self.steps_taken = 0;
        Action::Walk(loc)
    }

    /// Takes one step of the current walk, to the cell `(x, y)` wrapped onto
    /// the torus. The color is placed there if the cell is empty; else, when
    /// the budget is spent, at a random open cell.
    pub fn walk_step(&mut self, x: i64, y: i64, rng: &mut StdRng) -> (s: StepOutcome)
        requires
            old(self).wf(),
            old(self).is_walking(),
        ensures
            final(self).wf(),
            final(self).same_run(old(self)),
            0 <= work_left(final(self)) < work_left(old(self)),
            ({
                let loc = Location {
                    row: (x as int % old(self).side()) as usize,
                    col: (y as int % old(self).side()) as usize,
                };
                let c = cell_of(loc, old(self).side());
                &&& old(self).grid_view()[c] is None ==> s == StepOutcome::Placed(loc)
                    && placed_next_at(old(self), final(self), loc)
                &&& old(self).grid_view()[c] is Some && old(self).steps_taken_view() + 1
                    < old(self).walk_budget() ==> s == StepOutcome::Continue && unchanged_grid(
                    old(self),
                    final(self),
                ) && final(self).is_walking() && final(self).steps_taken_view()
                    == old(self).steps_taken_view() + 1
                &&& old(self).grid_view()[c] is Some && old(self).steps_taken_view() + 1
                    == old(self).walk_budget() ==> (s matches StepOutcome::FellBack(l)
                    && placed_next_at(old(self), final(self), l))
            }),
    {
        let row = wrap(x, self.size);
        let col = wrap(y, self.size);
        proof {
            lemma_loc_cell(row as int, col as int, self.size as int);
        }
        let c = row * self.size + col;
        let ghost o = *self;
        proof {
            let (t, p, b) = (self.cells as int, self.next as int, self.walk_steps as int);
            assert((t - p) * (b + 1) == (t - p - 1) * (b + 1) + b + 1) by (nonlinear_arith);
            assert((t - p - 1) * (b + 1) >= 0) by (nonlinear_arith)
                requires
                    p < t,
                    b >= 0,
            ;
        }
        match self.grid[c] {
            None => {
                let was_open = self.open.remove_value(c);
                assert(was_open);
                proof {
                    assert forall|x: usize| x < self.cells implies (#[trigger] self.open@.contains(x) <==> self.grid@[x as int] is None && x != c) by {
                        assert(o.open@.contains(x) <==> o.grid@[x as int] is None);
                    }
                }
                self.commit(c);
                StepOutcome::Placed(Location { row, col })
            },
            Some(_) => {
                if self.steps_taken + 1 < self.walk_steps {
                    self.steps_taken = self.steps_taken + 1;
                    StepOutcome::Continue
                } else {
                    let loc = self.place_random(rng);
                    StepOutcome::FellBack(loc)
                }
            },
        }
    }

    /// Cells on each side of the grid.
    pub fn side_len(&self) -> (r: usize)
        requires
            self.wf(),
        ensures
            r == self.side(),
    {
        self.size
    }

    /// Whether every color is placed.
    pub fn is_done(&self) -> (r: bool)
        requires
            self.wf(),
        ensures
            r == (self.placed_count() == self.total()),
    {
        self.next == self.cells
    }

    /// The color at `loc`, if any; `None` also outside the grid.
    pub fn color_at(&self, loc: Location) -> (r: Option<ColorBase>)
        requires
            self.wf(),
        ensures
            loc.row < self.side() && loc.col < self.side() ==> r == self.grid_view()[cell_of(
                loc,
                self.side(),
            )],
            !(loc.row < self.side() && loc.col < self.side()) ==> r is None,
    {
        if loc.row < self.size && loc.col < self.size {
            proof {
                lemma_loc_cell(loc.row as int, loc.col as int, self.size as int);
            }
            self.grid[loc.row * self.size + loc.col]
        } else {
            None
        }
    }

    /// Once every color is placed, every cell holds a valid color, and every
    /// valid color sits in exactly one cell.
    pub proof fn lemma_done_is_complete(&self)
        requires
            self.wf(),
            self.placed_count() == self.total(),
        ensures
            forall|c: int|
                0 <= c < self.total() ==> (#[trigger] self.grid_view()[c] matches Some(cb)
                    && valid_base(cb, self.color_size())),
            forall|cb: ColorBase|
                valid_base(cb, self.color_size()) ==> exists|c: int|
                    0 <= c < self.total() && #[trigger] self.grid_view()[c] == Some(cb),
            forall|c1: int, c2: int|
                0 <= c1 < self.total() && 0 <= c2 < self.total() && #[trigger] self.grid_view()[c1]
                    == #[trigger] self.grid_view()[c2] ==> c1 == c2,
    {
        let (n, cs) = (self.cells as int, self.cs as int);
        self.open.lemma_size_zero();
        assert forall|c: int| 0 <= c < n implies (#[trigger] self.grid@[c] matches Some(cb)
            && valid_base(cb, cs)) by {
            assert(!self.open@.contains(c as usize));
        }
        assert forall|cb: ColorBase| valid_base(cb, cs) implies exists|c: int|
            0 <= c < n && #[trigger] self.grid@[c] == Some(cb) by {
            assert(self.order@.contains(cb));
            let i = choose|i: int| 0 <= i < n && self.order@[i] == cb;
            lemma_code_of_base(cb, cs);
            let k = code_of(cb, cs);
            assert(self.placed_at@[code_of(self.order@[i], cs)] is Some);
            let c = self.placed_at@[k].unwrap();
            assert(self.grid@[c as int] == Some(base_of_index(k, cs)));
        }
        assert forall|c1: int, c2: int|
            0 <= c1 < n && 0 <= c2 < n && #[trigger] self.grid@[c1] == #[trigger] self.grid@[c2]
            implies c1 == c2 by {
            assert(self.grid@[c1] matches Some(cb) && valid_base(cb, cs)) by {
                assert(!self.open@.contains(c1 as usize));
            }
        }
    }

    /// The 8-bit RGB color of every cell, by flat index. Requires every color placed.
    pub fn pixels(&self) -> (px: Vec<[u8; 3]>)
        requires
            self.wf(),
            self.placed_count() == self.total(),
        ensures
            px@.len() == self.total(),
            forall|c: int|
                0 <= c < self.total() ==> (#[trigger] px@[c])@ == seq![
                    scaled(self.grid_view()[c].unwrap().r as int, self.color_size()) as u8,
                    scaled(self.grid_view()[c].unwrap().g as int, self.color_size()) as u8,
                    scaled(self.grid_view()[c].unwrap().b as int, self.color_size()) as u8,
                ],
    {
        proof {
            self.lemma_done_is_complete();
        }
        let mut px: Vec<[u8; 3]> = Vec::new();
        let mut c: usize = 0;
        while c < self.cells
            invariant
                self.wf(),
                self.placed_count() == self.total(),
                forall|c: int|
                    0 <= c < self.total() ==> (#[trigger] self.grid_view()[c] matches Some(cb)
                        && valid_base(cb, self.color_size())),
                c <= self.cells,
                px@.len() == c,
                forall|j: int|
                    0 <= j < c ==> (#[trigger] px@[j])@ == seq![
                        scaled(self.grid@[j].unwrap().r as int, self.cs as int) as u8,
                        scaled(self.grid@[j].unwrap().g as int, self.cs as int) as u8,
                        scaled(self.grid@[j].unwrap().b as int, self.cs as int) as u8,
                    ],
            decreases self.cells - c,
        {
            assert(self.grid@[c as int] is Some);
            let cb = self.grid[c].unwrap();
            px.push(color_base_to_color(cb, self.cs));
            c = c + 1;
        }
        px
    }
}

} // verus!
