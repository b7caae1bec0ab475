//! The obstacles of a level: their footprints, and the corners that become
//! the waypoints of the navigation mesh.

use crate::pathfinding::NavMesh;
use crate::utils::{well_formed, Point, Polygon};
use vstd::prelude::*;

verus! {

/// The footprints of all the obstacles, in the order in which they were made.
#[derive(Clone, Debug)]
pub struct ObstaclePolygons {
    pub polygons: Vec<Polygon>,
}

impl View for ObstaclePolygons {
    type V = Seq<Polygon>;

    open spec fn view(&self) -> Seq<Polygon> {
        self.polygons@
    }
}

/// The corners of all the polygons, polygon after polygon, each in its
/// winding order.
pub open spec fn all_corners(polygons: Seq<Polygon>) -> Seq<Point>
    decreases polygons.len(),
{
    if polygons.len() == 0 {
        Seq::empty()
    } else {
        all_corners(polygons.drop_last()) + polygons.last()@
    }
}

/// The footprint of a cuboid of the given size that stands at the origin with
/// its sides along the axes, widened by `buffer` on every side: four corners
/// at the height of its base, counter-clockwise as seen from above.
pub open spec fn footprint_corners(scale_x: int, scale_y: int, scale_z: int, buffer: int) -> Seq<
    Point,
> {
    let reach_x = scale_x / 2 + buffer;
    let reach_z = scale_z / 2 + buffer;
    let base = -(scale_y / 2);
    seq![
        Point { x: (-reach_x) as i32, y: base as i32, z: (-reach_z) as i32 },
        Point { x: (-reach_x) as i32, y: base as i32, z: reach_z as i32 },
        Point { x: reach_x as i32, y: base as i32, z: reach_z as i32 },
        Point { x: reach_x as i32, y: base as i32, z: (-reach_z) as i32 },
    ]
}

impl ObstaclePolygons {
    /// No obstacles.
    pub fn new() -> (obstacles: Self)
        ensures
            obstacles@ == Seq::<Polygon>::empty(),
    {
        ObstaclePolygons { polygons: Vec::new() }
    }

    /// Adds the footprint of one more obstacle.
    pub fn add_polygon(&mut self, polygon: Polygon)
        ensures
            final(self)@ == old(self)@.push(polygon),
    {
        self.polygons.push(polygon);
    }

    /// Adds the footprint of one more obstacle if it is well formed, and
    /// leaves it out if not. Says whether it was added.
    pub fn add_well_formed(&mut self, polygon: Polygon) -> (added: bool)
        ensures
            added == well_formed(polygon@),
            final(self)@ == if added {
                old(self)@.push(polygon)
            } else {
                old(self)@
            },
    {
        if polygon.is_well_formed() {
            self.polygons.push(polygon);
            true
        } else {
            false
        }
    }

    /// The corners of all the footprints: the waypoints that the obstacles
    /// give to the navigation mesh.
    pub fn corner_points(&self) -> (corners: Vec<Point>)
        ensures
            corners@ == all_corners(self@),
    {
        let mut corners: Vec<Point> = Vec::new();
        let n = self.polygons.len();
        let mut i: usize = 0;
        while i < n
            invariant
                n == self.polygons@.len(),
                i <= n,
                corners@ == all_corners(self.polygons@.subrange(0, i as int)),
            decreases n - i,
        {
            let polygon = &self.polygons[i];
            let m = polygon.vertices.len();
            let ghost before = corners@;
            let mut k: usize = 0;
            while k < m
                invariant
                    m == polygon@.len(),
                    k <= m,
                    corners@ == before + polygon@.subrange(0, k as int),
                decreases m - k,
            {
                corners.push(polygon.vertices[k]);
                k += 1;
            }
            proof {
                assert(polygon@.subrange(0, m as int) =~= polygon@);
                let upto = self.polygons@.subrange(0, i as int + 1);
                assert(upto.drop_last() =~= self.polygons@.subrange(0, i as int));
                assert(upto.last() == *polygon);
            }
            i += 1;
        }
        assert(self.polygons@.subrange(0, n as int) =~= self.polygons@);
        corners
    }

    /// A navigation mesh whose waypoints are the corners of the obstacles.
    pub fn build_mesh(&self) -> (mesh: NavMesh)
        ensures
            mesh@ == all_corners(self@),
    {
        NavMesh { vertices: self.corner_points() }
    }
}

/// The footprint of a cuboid of the given size, before it is turned and
/// moved to its place: see [`footprint_corners`].
pub fn generate_cuboid_polygon(scale_x: i32, scale_y: i32, scale_z: i32, buffer: i32) -> (polygon: Polygon)
    requires
        0 <= scale_x,
        0 <= scale_y,
        0 <= scale_z,
        0 <= buffer,
        scale_x / 2 + buffer <= i32::MAX,
        scale_z / 2 + buffer <= i32::MAX,
    ensures
        polygon@ == footprint_corners(
            scale_x as int,
            scale_y as int,
            scale_z as int,
            buffer as int,
        ),
{
    let reach_x = scale_x / 2 + buffer;
    let reach_z = scale_z / 2 + buffer;
    let base = -(scale_y / 2);
    let mut polygon = Polygon::new();
    polygon.add_vertex(-reach_x, base, -reach_z);
    polygon.add_vertex(-reach_x, base, reach_z);
    polygon.add_vertex(reach_x, base, reach_z);
    polygon.add_vertex(reach_x, base, -reach_z);
    assert(polygon@ =~= footprint_corners(
        scale_x as int,
        scale_y as int,
        scale_z as int,
        buffer as int,
    ));
    polygon
}

/// Where one obstacle stands and how large it is, as the generator drew it.
#[derive(Clone, Copy, Debug, PartialEq, Eq, Structural)]
pub struct Placement {
    /// The size of the obstacle along its own first horizontal axis.
    pub scale_x: i32,
    /// The size of the obstacle along its own second horizontal axis.
    pub scale_z: i32,
    /// Where the centre of the obstacle stands.
    pub x: i32,
    /// Where the centre of the obstacle stands.
    pub z: i32,
    /// By how much the obstacle is turned about the vertical axis, in parts
    /// of a full turn: see [`GeneratorConfig::full_turn`].
    pub rotation: i32,
}

/// What the generator draws from.
#[derive(Clone, Copy, Debug, PartialEq, Eq, Structural)]
pub struct GeneratorConfig {
    /// How many obstacles to make.
    pub count: usize,
    /// The least size of an obstacle along a horizontal axis.
    pub min_scale: i32,
    /// The greatest size of an obstacle along a horizontal axis.
    pub max_scale: i32,
    /// The least coordinate at which the centre of an obstacle may stand.
    pub min_position: i32,
    /// The greatest coordinate at which the centre of an obstacle may stand.
    pub max_position: i32,
    /// Into how many parts a full turn is divided. A rotation is a number of
    /// such parts, from none to one short of the full turn.
    pub full_turn: i32,
}

impl GeneratorConfig {
    /// There is something to draw from: each range holds a number.
    pub open spec fn valid(&self) -> bool {
        &&& self.min_scale <= self.max_scale
        &&& self.min_position <= self.max_position
        &&& 0 < self.full_turn
    }

    /// The placement is one that this configuration may give.
    pub open spec fn admits(&self, placement: Placement) -> bool {
        &&& self.min_scale <= placement.scale_x <= self.max_scale
        &&& self.min_scale <= placement.scale_z <= self.max_scale
        &&& self.min_position <= placement.x <= self.max_position
        &&& self.min_position <= placement.z <= self.max_position
        &&& 0 <= placement.rotation < self.full_turn
    }

    /// Whether there is something to draw from.
    pub fn is_valid(&self) -> (ok: bool)
        ensures
            ok == self.valid(),
    {
        self.min_scale <= self.max_scale && self.min_position <= self.max_position && 0
            < self.full_turn
    }
}

/// Why no obstacles were generated.
#[derive(Clone, Copy, Debug, PartialEq, Eq, Structural)]
pub enum GeneratorError {
    /// A range of the configuration holds no number: a least value lies above
    /// the greatest, or a full turn has no parts.
    EmptyRange,
    /// No seed was given, and the operating system gave no random bytes to
    /// start from.
    NoEntropy,
}

/// The random number generator of the `rand` crate.
#[verifier::external_type_specification]
#[verifier::external_body]
pub struct ExStdRng(rand::rngs::StdRng);

/// The error of the random number generators of the `rand` crate.
#[verifier::external_type_specification]
#[verifier::external_body]
pub struct ExRandError(rand::Error);

/// A random number generator, with what it started from and what has been
/// asked of it since. A source is made by [`source_from_seed`] or
/// [`source_from_os`] and by nothing else.
pub struct Source {
    rng: rand::rngs::StdRng,
    seed: Ghost<Option<u64>>,
    asked: Ghost<Seq<(i32, i32)>>,
}

impl Source {
    /// The seed that the source started from; `None` where it started from
    /// what the operating system gave.
    pub closed spec fn seed(&self) -> Option<u64> {
        self.seed@
    }

    /// The ranges from which numbers have been drawn so far, first to last.
    pub closed spec fn asked(&self) -> Seq<(i32, i32)> {
        self.asked@
    }
}

/// The number that a generator started from `seed` gives from the range
/// `low` to `high`, both included, after it has been asked for a number from
/// each of the ranges `asked` in turn.
pub uninterp spec fn seeded_draw(seed: u64, asked: Seq<(i32, i32)>, low: i32, high: i32) -> i32;

/// `SeedableRng::seed_from_u64` of the `rand` crate, for its `StdRng`: a
/// generator that starts from the given seed, of which nothing has been asked
/// yet.
#[verifier::external_body]
fn source_from_seed(seed: u64) -> (source: Source)
    ensures
        source.seed() == Some(seed),
        source.asked().len() == 0,
{
    Source {
        rng: rand::SeedableRng::seed_from_u64(seed),
        seed: Ghost(Some(seed)),
        asked: Ghost(Seq::empty()),
    }
}

/// `SeedableRng::from_rng` of the `rand` crate, for its `StdRng`, on the
/// `OsRng` of that crate: a generator that starts from random bytes of the
/// operating system, or the error with which the operating system refused
/// them. Of a generator so made nothing has been asked yet, and it has no
/// seed.
#[verifier::external_body]
fn source_from_os() -> (made: Result<Source, rand::Error>)
    ensures
        match made {
            Ok(source) => source.seed() is None && source.asked().len() == 0,
            Err(_) => true,
        },
{
    match rand::SeedableRng::from_rng(rand::rngs::OsRng) {
        Ok(rng) => Ok(Source { rng, seed: Ghost(None), asked: Ghost(Seq::empty()) }),
        Err(error) => Err(error),
    }
}

/// `Rng::gen_range` of the `rand` crate, on the range from `low` to `high`,
/// both included: the number drawn is at least `low` and at most `high`, and
/// the range is one more that has been asked. A generator that started from a
/// seed gives the number that this seed gives after what was asked before:
/// the same seed and the same ranges asked, in the same order, give the same
/// numbers. The range must hold a number, or the call panics.
#[verifier::external_body]
fn draw(source: &mut Source, low: i32, high: i32) -> (drawn: i32)
    requires
        low <= high,
    ensures
        low <= drawn <= high,
        final(source).seed() == old(source).seed(),
        final(source).asked() == old(source).asked().push((low, high)),
        old(source).seed() matches Some(seed) ==> drawn == seeded_draw(
            seed,
            old(source).asked(),
            low,
            high,
        ),
{
    rand::Rng::gen_range(&mut source.rng, low..=high)
}

/// The five ranges from which one placement is drawn, in the order in which
/// they are asked: the two sizes, the two coordinates, the rotation.
pub open spec fn ranges_asked(config: GeneratorConfig) -> Seq<(i32, i32)> {
    seq![
        (config.min_scale, config.max_scale),
        (config.min_scale, config.max_scale),
        (config.min_position, config.max_position),
        (config.min_position, config.max_position),
        (0i32, (config.full_turn - 1) as i32),
    ]
}

/// The ranges asked for the first `i` placements.
pub open spec fn asked_before(config: GeneratorConfig, i: nat) -> Seq<(i32, i32)>
    decreases i,
{
    if i == 0 {
        Seq::empty()
    } else {
        asked_before(config, (i - 1) as nat) + ranges_asked(config)
    }
}

/// The placement that a generator started from `seed` gives after it has
/// been asked for numbers from the ranges `asked`.
pub open spec fn placement_after(seed: u64, asked: Seq<(i32, i32)>, config: GeneratorConfig)
    -> Placement {
    let r = ranges_asked(config);
    Placement {
        scale_x: seeded_draw(seed, asked, r[0].0, r[0].1),
        scale_z: seeded_draw(seed, asked.push(r[0]), r[1].0, r[1].1),
        x: seeded_draw(seed, asked.push(r[0]).push(r[1]), r[2].0, r[2].1),
        z: seeded_draw(seed, asked.push(r[0]).push(r[1]).push(r[2]), r[3].0, r[3].1),
        rotation: seeded_draw(
            seed,
            asked.push(r[0]).push(r[1]).push(r[2]).push(r[3]),
            r[4].0,
            r[4].1,
        ),
    }
}

/// Placement `i` of those that a generator gives that started from `seed`
/// and had been asked for numbers from the ranges `asked` before the first.
pub open spec fn seeded_placement(
    seed: u64,
    asked: Seq<(i32, i32)>,
    config: GeneratorConfig,
    i: nat,
) -> Placement {
    placement_after(seed, asked + asked_before(config, i), config)
}

/// Draws one placement.
fn draw_placement(source: &mut Source, config: &GeneratorConfig) -> (placement: Placement)
    requires
        config.valid(),
    ensures
        config.admits(placement),
        final(source).seed() == old(source).seed(),
        final(source).asked() == old(source).asked() + ranges_asked(*config),
        old(source).seed() matches Some(seed) ==> placement == placement_after(
            seed,
            old(source).asked(),
            *config,
        ),
{
    let scale_x = draw(source, config.min_scale, config.max_scale);
    let scale_z = draw(source, config.min_scale, config.max_scale);
    let x = draw(source, config.min_position, config.max_position);
    let z = draw(source, config.min_position, config.max_position);
    let rotation = draw(source, 0, config.full_turn - 1);
    assert(source.asked() =~= old(source).asked() + ranges_asked(*config));
    Placement { scale_x, scale_z, x, z, rotation }
}

/// What [`generate_from`] gives: the placements drawn, or why there are none.
pub open spec fn generated(
    outcome: Result<Vec<Placement>, GeneratorError>,
    config: GeneratorConfig,
    seed: Option<u64>,
    asked: Seq<(i32, i32)>,
) -> bool {
    match outcome {
        Ok(drawn) => {
            &&& config.valid()
            &&& drawn@.len() == config.count
            &&& forall|i: int| 0 <= i < drawn@.len() ==> config.admits(#[trigger] drawn@[i])
            &&& seed matches Some(s) ==> forall|i: int|
                0 <= i < drawn@.len() ==> #[trigger] drawn@[i] == seeded_placement(
                    s,
                    asked,
                    config,
                    i as nat,
                )
        },
        Err(GeneratorError::EmptyRange) => !config.valid(),
        Err(GeneratorError::NoEntropy) => config.valid(),
    }
}

/// Draws the placements of `config.count` obstacles from the source made, or
/// says why there are none: an empty range in `config` comes first, then a
/// source that could not be made.
pub fn generate_from(made: Result<Source, rand::Error>, config: &GeneratorConfig) -> (outcome:
    Result<Vec<Placement>, GeneratorError>)
    ensures
        !config.valid() ==> outcome == Err::<Vec<Placement>, GeneratorError>(
            GeneratorError::EmptyRange,
        ),
        config.valid() && made is Err ==> outcome == Err::<Vec<Placement>, GeneratorError>(
            GeneratorError::NoEntropy,
        ),
        made matches Ok(source) ==> generated(outcome, *config, source.seed(), source.asked()),
        config.valid() && made is Ok ==> outcome is Ok,
{
    if !config.is_valid() {
        return Err(GeneratorError::EmptyRange);
    }
    let mut source = match made {
        Ok(source) => source,
        Err(_) => {
            return Err(GeneratorError::NoEntropy);
        },
    };
    let ghost seed = source.seed();
    let ghost asked = source.asked();
    let mut drawn: Vec<Placement> = Vec::new();
    let mut i: usize = 0;
    while i < config.count
        invariant
            config.valid(),
            i <= config.count,
            drawn@.len() == i,
            source.seed() == seed,
            source.asked() == asked + asked_before(*config, i as nat),
            forall|k: int| 0 <= k < drawn@.len() ==> config.admits(#[trigger] drawn@[k]),
            seed matches Some(s) ==> forall|k: int|
                0 <= k < drawn@.len() ==> #[trigger] drawn@[k] == seeded_placement(
                    s,
                    asked,
                    *config,
                    k as nat,
                ),
        decreases config.count - i,
    {
        let placement = draw_placement(&mut source, config);
        drawn.push(placement);
        proof {
            assert(asked + asked_before(*config, (i + 1) as nat) =~= asked + asked_before(
                *config,
                i as nat,
            ) + ranges_asked(*config));
        }
        i += 1;
    }
    Ok(drawn)
}

/// Draws the placements of `config.count` obstacles: for each a size along
/// both horizontal axes, a place for its centre and a rotation about the
/// vertical axis, every one within the bounds of `config`.
///
/// With a seed the generator starts from it, and the same seed gives the
/// same placements. Without one it starts from random bytes of the operating
/// system. There are no placements where a range of `config` holds no number,
/// and where no seed was given and the operating system gave no random bytes.
pub fn generate_cuboids(config: &GeneratorConfig, seed: Option<u64>) -> (outcome: Result<
    Vec<Placement>,
    GeneratorError,
>)
    ensures
        generated(outcome, *config, seed, Seq::<(i32, i32)>::empty()),
        outcome == Err::<Vec<Placement>, GeneratorError>(GeneratorError::EmptyRange)
            <==> !config.valid(),
        outcome == Err::<Vec<Placement>, GeneratorError>(GeneratorError::NoEntropy) ==> seed is None,
        config.valid() && seed is Some ==> outcome is Ok,
{
    let made = match seed {
        Some(seed) => Ok(source_from_seed(seed)),
        None => source_from_os(),
    };
    generate_from(made, config)
}

} // verus!
