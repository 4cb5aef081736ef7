use vstd::prelude::*;

verus! {

/// `keys[i]` is a hit whose distance key lies below `bound`.
pub open spec fn is_candidate(keys: Seq<Option<u32>>, i: int, bound: u32) -> bool {
    0 <= i < keys.len() && keys[i] is Some && keys[i]->0 < bound
}

/// `i` is the closest hit: a candidate that no candidate beats, and the first
/// among candidates at the same distance.
pub open spec fn is_closest(keys: Seq<Option<u32>>, i: int, bound: u32) -> bool {
    &&& is_candidate(keys, i, bound)
    &&& forall|j: int| #[trigger] is_candidate(keys, j, bound) ==> keys[i]->0 <= keys[j]->0
    &&& forall|j: int| 0 <= j < i && #[trigger] is_candidate(keys, j, bound) ==> keys[i]->0 < keys[j]->0
}

/// Picks the surface that a ray reaches first. `keys[i]` is `None` where the
/// ray misses triangle `i`, and otherwise a key that orders the distances to
/// the hit points; only hits strictly below `bound` count. Returns the index
/// of the nearest such hit (the first one on a tie), or `None` if there is none.
pub fn select_closest(keys: &Vec<Option<u32>>, bound: u32) -> (res: Option<usize>)
    ensures
        res is None <==> !exists|j: int| is_candidate(keys@, j, bound),
        res matches Some(i) ==> is_closest(keys@, i as int, bound),
        res is None ==> forall|j: int|
            0 <= j < keys@.len() ==> #[trigger] keys@[j] is None || keys@[j]->0 >= bound,
        res matches Some(i) ==> i < keys@.len() && keys@[i as int] is Some && keys@[i as int]->0
            < bound,
{
    let mut best: Option<usize> = None;
    let mut shortest: u32 = bound;
    let n = keys.len();
    for i in 0..n
        invariant
            n == keys@.len(),
            best is None ==> shortest == bound && forall|j: int|
                0 <= j < i ==> !#[trigger] is_candidate(keys@, j, bound),
            best matches Some(b) ==> {
                &&& b < i
                &&& is_candidate(keys@, b as int, bound)
                &&& shortest == keys@[b as int]->0
                &&& forall|j: int|
                    0 <= j < i && #[trigger] is_candidate(keys@, j, bound) ==> shortest <= keys@[j]->0
                &&& forall|j: int|
                    0 <= j < b && #[trigger] is_candidate(keys@, j, bound) ==> shortest < keys@[j]->0
            },
    {
        if let Some(k) = keys[i] {
            if k < shortest {
                shortest = k;
                best = Some(i);
            }
        }
    }
    proof {
        if best is None {
            assert forall|j: int| 0 <= j < keys@.len() implies #[trigger] keys@[j] is None
                || keys@[j]->0 >= bound by {
                assert(!is_candidate(keys@, j, bound));
            }
        }
    }
    best
}

/// What the closest hit is, spelled out: a hit below the bound, with no
/// hit below the bound strictly nearer, and every hit before it below the
/// bound strictly farther, so the first of equally near hits is taken.
pub proof fn lemma_closest_is_first_nearest(keys: Seq<Option<u32>>, i: int, bound: u32)
    requires
        is_closest(keys, i, bound),
    ensures
        0 <= i < keys.len(),
        keys[i] matches Some(k) && k < bound,
        forall|j: int|
            0 <= j < keys.len() && keys[j] is Some && keys[j]->0 < bound ==> keys[i]->0
                <= keys[j]->0,
        forall|j: int|
            0 <= j < i && keys[j] is Some && keys[j]->0 < bound ==> keys[i]->0 < keys[j]->0,
{
    assert forall|j: int|
        0 <= j < keys.len() && keys[j] is Some && keys[j]->0 < bound implies keys[i]->0
        <= keys[j]->0 by {
        assert(is_candidate(keys, j, bound));
    }
    assert forall|j: int|
        0 <= j < i && keys[j] is Some && keys[j]->0 < bound implies keys[i]->0 < keys[j]->0 by {
        assert(is_candidate(keys, j, bound));
    }
}

/// All hits of a list of rays, ray after ray, each ray's hits in their order.
pub open spec fn flatten<T>(rays: Seq<Seq<T>>) -> Seq<T>
    decreases rays.len(),
{
    if rays.len() == 0 {
        Seq::empty()
    } else {
        flatten(rays.drop_last()) + rays.last()
    }
}

/// Recording one more ray after the hits of `rays` gives the hits of all of
/// them, in order.
proof fn lemma_flatten_push<T>(rays: Seq<Seq<T>>, hits: Seq<T>)
    ensures
        flatten(rays) + hits == flatten(rays.push(hits)),
{
    assert(rays.push(hits).drop_last() =~= rays);
}

/// The hits of a list of rays split at `k` are the hits before `k` followed by
/// those from `k` on.
proof fn lemma_flatten_split<T>(rays: Seq<Seq<T>>, k: int)
    requires
        0 <= k <= rays.len(),
    ensures
        flatten(rays.take(k)) + flatten(rays.skip(k)) == flatten(rays),
    decreases rays.len() - k,
{
    if k == rays.len() {
        assert(rays.take(k) =~= rays);
        assert(rays.skip(k) =~= Seq::<Seq<T>>::empty());
        assert(flatten(rays) + Seq::<T>::empty() =~= flatten(rays));
    } else {
        lemma_flatten_split(rays, k + 1);
        lemma_flatten_push(rays.take(k), rays[k]);
        assert(rays.take(k).push(rays[k]) =~= rays.take(k + 1));
        lemma_skip_first(rays.skip(k));
        assert(rays.skip(k).drop_first() =~= rays.skip(k + 1));
        assert(flatten(rays.take(k)) + flatten(rays.skip(k)) =~= flatten(rays.take(k + 1))
            + flatten(rays.skip(k + 1)));
    }
}

/// The hits of a non-empty list of rays are the first ray's hits followed by
/// those of the rest.
proof fn lemma_skip_first<T>(rays: Seq<Seq<T>>)
    requires
        rays.len() > 0,
    ensures
        flatten(rays) == rays[0] + flatten(rays.drop_first()),
    decreases rays.len(),
{
    if rays.len() == 1 {
        assert(rays.drop_last() =~= Seq::<Seq<T>>::empty());
        assert(rays.drop_first() =~= Seq::<Seq<T>>::empty());
        assert(flatten(rays) =~= rays[0]);
        assert(rays[0] + Seq::<T>::empty() =~= rays[0]);
    } else {
        lemma_skip_first(rays.drop_last());
        assert(rays.drop_last().drop_first() =~= rays.drop_first().drop_last());
        assert(rays.drop_first().last() == rays.last());
        assert(flatten(rays) =~= rays[0] + flatten(rays.drop_first()));
    }
}

/// The hits that reached the microphone, as a delay and a pressure each, kept
/// in two lists of equal length.
pub struct HitBuckets<D, P> {
    delays: Vec<D>,
    pressures: Vec<P>,
}

impl<D, P> View for HitBuckets<D, P> {
    type V = Seq<(D, P)>;

    closed spec fn view(&self) -> Seq<(D, P)> {
        Seq::new(self.delays@.len(), |i: int| (self.delays@[i], self.pressures@[i]))
    }
}

impl<D, P> HitBuckets<D, P> {
    #[verifier::type_invariant]
    spec fn paired(self) -> bool {
        self.delays@.len() == self.pressures@.len()
    }
}

impl<D: Copy, P: Copy> HitBuckets<D, P> {
    /// No hits yet.
    pub fn new() -> (res: Self)
        ensures
            res@ == Seq::<(D, P)>::empty(),
    {
        let res = HitBuckets { delays: Vec::new(), pressures: Vec::new() };
        assert(res@ =~= Seq::<(D, P)>::empty());
        res
    }

    /// The number of hits gathered.
    pub fn len(&self) -> (res: usize)
        ensures
            res == self@.len(),
    {
        self.delays.len()
    }

    /// Adds the hits that one ray made, in their order, after those already
    /// gathered.
    pub fn record_ray(&mut self, hits: &Vec<(D, P)>)
        ensures
            final(self)@ == old(self)@ + hits@,
    {
        proof {
            use_type_invariant(&*self);
        }
        let mut taken = HitBuckets::new();
        std::mem::swap(self, &mut taken);
        let HitBuckets { mut delays, mut pressures } = taken;
        let ghost start = old(self)@;
        let n = hits.len();
        for i in 0..n
            invariant
                n == hits@.len(),
                delays@.len() == pressures@.len(),
                delays@.len() == start.len() + i,
                forall|j: int| 0 <= j < start.len() ==> #[trigger] delays@[j] == start[j].0,
                forall|j: int| 0 <= j < start.len() ==> #[trigger] pressures@[j] == start[j].1,
                forall|j: int| 0 <= j < i ==> #[trigger] delays@[start.len() + j] == hits@[j].0,
                forall|j: int| 0 <= j < i ==> #[trigger] pressures@[start.len() + j] == hits@[j].1,
        {
            let (delay, pressure) = hits[i];
            delays.push(delay);
            pressures.push(pressure);
        }
        *self = HitBuckets { delays, pressures };
        assert(self@ =~= start + hits@) by {
            assert forall|j: int| 0 <= j < self@.len() implies #[trigger] self@[j] == (start
                + hits@)[j] by {
                if j >= start.len() {
                    assert(delays@[start.len() + (j - start.len())] == hits@[j - start.len()].0);
                    assert(pressures@[start.len() + (j - start.len())] == hits@[j
                        - start.len()].1);
                }
            }
        }
    }

    /// Joins the hits of two workers: those of `self`, then those of `other`.
    pub fn merge(self, other: Self) -> (res: Self)
        ensures
            res@ == self@ + other@,
    {
        proof {
            use_type_invariant(&self);
            use_type_invariant(&other);
        }
        let HitBuckets { mut delays, mut pressures } = self;
        let HitBuckets { delays: mut other_delays, pressures: mut other_pressures } = other;
        let ghost (a, b) = (self@, other@);
        delays.append(&mut other_delays);
        pressures.append(&mut other_pressures);
        let res = HitBuckets { delays, pressures };
        assert(res@ =~= a + b);
        res
    }

    /// The delays and the pressures as two lists: entry `i` of each belongs
    /// to hit `i`.
    pub fn into_parts(self) -> (res: (Vec<D>, Vec<P>))
        ensures
            res.0@.len() == self@.len(),
            res.1@.len() == self@.len(),
            forall|i: int| 0 <= i < self@.len() ==> #[trigger] self@[i] == (res.0@[i], res.1@[i]),
    {
        proof {
            use_type_invariant(&self);
        }
        (self.delays, self.pressures)
    }
}

/// A worker that starts with no hits and records its rays one by one holds the
/// hits of those rays, ray after ray: if a bucket holds the hits of `rays`,
/// recording `hits` after them leaves it holding the hits of `rays` and then
/// of `hits`.
pub proof fn lemma_record_next_ray<D, P>(
    bucket: HitBuckets<D, P>,
    rays: Seq<Seq<(D, P)>>,
    hits: Seq<(D, P)>,
)
    requires
        bucket@ == flatten(rays),
    ensures
        bucket@ + hits == flatten(rays.push(hits)),
{
    lemma_flatten_push(rays, hits);
}

/// Sharing the rays between two workers at any point `k` and merging the
/// first worker's bucket with the second's gives exactly the hits, in the same
/// order, that one worker recording every ray would hold.
pub proof fn lemma_split_then_merge<D, P>(
    left: HitBuckets<D, P>,
    right: HitBuckets<D, P>,
    rays: Seq<Seq<(D, P)>>,
    k: int,
)
    requires
        0 <= k <= rays.len(),
        left@ == flatten(rays.take(k)),
        right@ == flatten(rays.skip(k)),
    ensures
        left@ + right@ == flatten(rays),
{
    lemma_flatten_split(rays, k);
}

/// Merging is associative, so the shape in which a parallel reduction joins
/// its workers' buckets does not change the hits it ends with.
pub proof fn lemma_merge_associative<D, P>(
    a: HitBuckets<D, P>,
    b: HitBuckets<D, P>,
    c: HitBuckets<D, P>,
)
    ensures
        (a@ + b@) + c@ == a@ + (b@ + c@),
{
    assert((a@ + b@) + c@ =~= a@ + (b@ + c@));
}

/// The hits that each of a list of per-ray hit buffers holds.
pub open spec fn buffer_views<T>(buffers: Seq<Vec<T>>) -> Seq<Seq<T>> {
    buffers.map_values(|v: Vec<T>| v@)
}

/// `buffers` are what `trace` handed back for rays `0`, `1`, ..., in order,
/// one buffer per ray.
pub open spec fn traced<T, F: Fn(u32) -> Vec<T>>(trace: F, rays: u32, buffers: Seq<Vec<T>>) -> bool {
    &&& buffers.len() == rays
    &&& forall|i: int| 0 <= i < rays ==> call_ensures(trace, (i as u32,), #[trigger] buffers[i])
}

/// Casts `rays` rays one after the other: `trace(i)` follows ray `i` and hands
/// back its hits. The result holds the hits of every ray, ray after ray, each
/// ray's hits in their order.
pub fn gather_rays<D: Copy, P: Copy, F: Fn(u32) -> Vec<(D, P)>>(rays: u32, trace: F) -> (res:
    HitBuckets<D, P>)
    requires
        forall|i: u32| i < rays ==> call_requires(trace, (i,)),
    ensures
        exists|buffers: Seq<Vec<(D, P)>>|
            #[trigger] traced(trace, rays, buffers) && res@ == flatten(buffer_views(buffers)),
{
    let mut res = HitBuckets::new();
    let ghost mut buffers: Seq<Vec<(D, P)>> = Seq::empty();
    proof {
        assert(buffer_views(buffers) =~= Seq::<Seq<(D, P)>>::empty());
    }
    for i in 0..rays
        invariant
            forall|j: u32| j < rays ==> call_requires(trace, (j,)),
            buffers.len() == i,
            forall|j: int| 0 <= j < i ==> call_ensures(trace, (j as u32,), #[trigger] buffers[j]),
            res@ == flatten(buffer_views(buffers)),
    {
        let hits = trace(i);
        res.record_ray(&hits);
        proof {
            lemma_flatten_push(buffer_views(buffers), hits@);
            assert(buffer_views(buffers.push(hits)) =~= buffer_views(buffers).push(hits@));
            buffers = buffers.push(hits);
        }
    }
    assert(traced(trace, rays, buffers));
    res
}

/// If no ray makes more than `per_ray` hits, the rays together make at most
/// `rays.len() * per_ray` of them: with at most `max_bounces` hits a ray, a
/// run of `rays_to_cast` rays gathers at most `rays_to_cast * max_bounces`.
pub proof fn lemma_gathered_hits_bounded<T>(rays: Seq<Seq<T>>, per_ray: nat)
    requires
        forall|i: int| 0 <= i < rays.len() ==> #[trigger] rays[i].len() <= per_ray,
    ensures
        flatten(rays).len() <= rays.len() * per_ray,
    decreases rays.len(),
{
    if rays.len() > 0 {
        let rest = rays.drop_last();
        assert forall|i: int| 0 <= i < rest.len() implies #[trigger] rest[i].len() <= per_ray by {
            assert(rest[i] == rays[i]);
        }
        lemma_gathered_hits_bounded(rest, per_ray);
        assert(rays.last().len() <= per_ray) by {
            assert(rays[rays.len() - 1].len() <= per_ray);
        }
        let n = rays.len() as int;
        let m = per_ray as int;
        assert((n - 1) * m + m == n * m) by (nonlinear_arith);
    }
}

/// What casting a ray gave: no surface in its way, or a reflection after which
/// the ray is, or is not yet, too quiet to follow.
pub enum BounceEvent {
    Missed,
    Reflected { too_quiet: bool },
}

/// The decisions of one ray's flight: it is cast again and again, up to
/// `max_bounces` times, and stops early when it misses every surface or when a
/// reflection has left it too quiet.
pub struct BounceLoop {
    max_bounces: u32,
    bounces: u32,
    stopped: bool,
}

impl BounceLoop {
    #[verifier::type_invariant]
    spec fn within_budget(self) -> bool {
        self.bounces <= self.max_bounces
    }

    /// The most reflections that the ray may make.
    pub closed spec fn spec_max_bounces(self) -> nat {
        self.max_bounces as nat
    }

    /// The reflections made so far.
    pub closed spec fn spec_bounces(self) -> nat {
        self.bounces as nat
    }

    /// Whether the ray has stopped early, by a miss or by growing too quiet.
    pub closed spec fn spec_stopped(self) -> bool {
        self.stopped
    }

    /// Whether the ray is to be cast once more.
    pub open spec fn spec_wants_cast(self) -> bool {
        !self.spec_stopped() && self.spec_bounces() < self.spec_max_bounces()
    }

    /// A ray that has not been cast yet.
    pub fn new(max_bounces: u32) -> (res: Self)
        ensures
            res.spec_max_bounces() == max_bounces,
            res.spec_bounces() == 0,
            !res.spec_stopped(),
    {
        BounceLoop { max_bounces, bounces: 0, stopped: false }
    }

    /// Whether the ray is to be cast once more.
    pub fn wants_cast(&self) -> (res: bool)
        ensures
            res == self.spec_wants_cast(),
            self.spec_stopped() ==> !res,
            !self.spec_stopped() ==> (res <==> self.spec_bounces() < self.spec_max_bounces()),
    {
        !self.stopped && self.bounces < self.max_bounces
    }

    /// The reflections made so far.
    pub fn bounces(&self) -> (res: u32)
        ensures
            res == self.spec_bounces(),
            res <= self.spec_max_bounces(),
    {
        proof {
            use_type_invariant(self);
        }
        self.bounces
    }

    /// Takes in what the last cast gave.
    pub fn record(&mut self, event: BounceEvent)
        requires
            old(self).spec_wants_cast(),
        ensures
            final(self).spec_max_bounces() == old(self).spec_max_bounces(),
            final(self).spec_bounces() == old(self).spec_bounces() + match event {
                BounceEvent::Missed => 0int,
                BounceEvent::Reflected { .. } => 1int,
            },
            final(self).spec_stopped() == match event {
                BounceEvent::Missed => true,
                BounceEvent::Reflected { too_quiet } => too_quiet,
            },
    {
        match event {
            BounceEvent::Missed => {
                self.stopped = true;
            },
            BounceEvent::Reflected { too_quiet } => {
                self.bounces = self.bounces + 1;
                self.stopped = too_quiet;
            },
        }
    }
}

/// When a ray is cast again: a flight that has stopped, by a miss or by a
/// reflection that left it too quiet, is never cast again, whatever its count
/// and budget; a flight that has not stopped is cast again exactly while it
/// has made fewer reflections than its budget, so a ray reflected on every
/// cast and never too quiet makes exactly `max_bounces` reflections.
pub proof fn lemma_when_cast_again(flight: BounceLoop)
    ensures
        flight.spec_stopped() ==> !flight.spec_wants_cast(),
        !flight.spec_stopped() ==> (flight.spec_wants_cast() <==> flight.spec_bounces()
            < flight.spec_max_bounces()),
{
}

/// Recording a reflection that does not leave the ray too quiet keeps it
/// wanting casts until its budget is spent: after such a reflection from a
/// flight that was still being cast, it is cast again exactly when one more
/// reflection still fits in the budget.
pub proof fn lemma_quiet_free_reflection(before: BounceLoop, after: BounceLoop)
    requires
        before.spec_wants_cast(),
        after.spec_max_bounces() == before.spec_max_bounces(),
        after.spec_bounces() == before.spec_bounces() + 1,
        !after.spec_stopped(),
    ensures
        after.spec_wants_cast() <==> before.spec_bounces() + 1 < before.spec_max_bounces(),
        before.spec_bounces() < before.spec_max_bounces(),
{
}

/// The points that a ray passes through: where it starts, then each point at
/// which it is reflected, up to its bounce budget.
pub struct RayPath<P> {
    points: Vec<P>,
    control: BounceLoop,
}

impl<P> RayPath<P> {
    /// One point for the start and one for each reflection.
    pub closed spec fn wf(self) -> bool {
        self.points@.len() == self.control.spec_bounces() + 1
    }

    /// The points so far.
    pub closed spec fn spec_points(self) -> Seq<P> {
        self.points@
    }

    /// The decisions of the ray's flight.
    pub closed spec fn spec_control(self) -> BounceLoop {
        self.control
    }
}

impl<P: Copy> RayPath<P> {
    /// A path that starts at `origin`, for a ray that may make up to
    /// `max_bounces` reflections.
    pub fn new(origin: P, max_bounces: u32) -> (res: Self)
        ensures
            res.wf(),
            res.spec_points() == seq![origin],
            res.spec_control().spec_max_bounces() == max_bounces,
            res.spec_control().spec_bounces() == 0,
            !res.spec_control().spec_stopped(),
    {
        let mut points = Vec::new();
        points.push(origin);
        RayPath { points, control: BounceLoop::new(max_bounces) }
    }

    /// Whether the ray is to be cast once more.
    pub fn wants_cast(&self) -> (res: bool)
        ensures
            res == self.spec_control().spec_wants_cast(),
            self.spec_control().spec_stopped() ==> !res,
            !self.spec_control().spec_stopped() ==> (res <==> self.spec_control().spec_bounces()
                < self.spec_control().spec_max_bounces()),
    {
        self.control.wants_cast()
    }

    /// The ray missed every surface: the path ends here.
    pub fn miss(&mut self)
        requires
            old(self).wf(),
            old(self).spec_control().spec_wants_cast(),
        ensures
            final(self).wf(),
            final(self).spec_points() == old(self).spec_points(),
            final(self).spec_control().spec_max_bounces() == old(
                self,
            ).spec_control().spec_max_bounces(),
            final(self).spec_control().spec_bounces() == old(self).spec_control().spec_bounces(),
            final(self).spec_control().spec_stopped(),
    {
        self.control.record(BounceEvent::Missed);
    }

    /// The ray was reflected at `point`, and is too quiet afterwards when
    /// `too_quiet` holds: the point joins the path.
    pub fn reflect(&mut self, point: P, too_quiet: bool)
        requires
            old(self).wf(),
            old(self).spec_control().spec_wants_cast(),
        ensures
            final(self).wf(),
            final(self).spec_points() == old(self).spec_points().push(point),
            final(self).spec_control().spec_max_bounces() == old(
                self,
            ).spec_control().spec_max_bounces(),
            final(self).spec_control().spec_bounces() == old(self).spec_control().spec_bounces()
                + 1,
            final(self).spec_control().spec_stopped() == too_quiet,
    {
        self.points.push(point);
        self.control.record(BounceEvent::Reflected { too_quiet });
    }

    /// The points of the path, from its start to its last reflection.
    pub fn into_points(self) -> (res: Vec<P>)
        requires
            self.wf(),
        ensures
            res@ == self.spec_points(),
            res@.len() == self.spec_control().spec_bounces() + 1,
            res@.len() <= self.spec_control().spec_max_bounces() + 1,
    {
        proof {
            use_type_invariant(&self.control);
        }
        self.points
    }
}


/// The hits that one ray records as it flies: each reflection may add the
/// pass near the microphone on the segment that led to it, so a ray records at
/// most one hit per reflection and at most its bounce budget of hits.
pub struct RayHits<D, P> {
    hits: Vec<(D, P)>,
    control: BounceLoop,
}

/// The hit of a segment as a list of at most one entry.
pub open spec fn hit_seq<T>(hit: Option<T>) -> Seq<T> {
    match hit {
        Some(h) => seq![h],
        None => Seq::empty(),
    }
}

impl<D, P> RayHits<D, P> {
    /// No more hits than reflections.
    pub closed spec fn wf(self) -> bool {
        self.hits@.len() <= self.control.spec_bounces()
    }

    /// The hits recorded so far.
    pub closed spec fn spec_hits(self) -> Seq<(D, P)> {
        self.hits@
    }

    /// The decisions of the ray's flight.
    pub closed spec fn spec_control(self) -> BounceLoop {
        self.control
    }
}

impl<D: Copy, P: Copy> RayHits<D, P> {
    /// A ray that has recorded nothing yet and may make up to `max_bounces`
    /// reflections.
    pub fn new(max_bounces: u32) -> (res: Self)
        ensures
            res.wf(),
            res.spec_hits() == Seq::<(D, P)>::empty(),
            res.spec_control().spec_max_bounces() == max_bounces,
            res.spec_control().spec_bounces() == 0,
            !res.spec_control().spec_stopped(),
    {
        RayHits { hits: Vec::new(), control: BounceLoop::new(max_bounces) }
    }

    /// Whether the ray is to be cast once more.
    pub fn wants_cast(&self) -> (res: bool)
        ensures
            res == self.spec_control().spec_wants_cast(),
            self.spec_control().spec_stopped() ==> !res,
            !self.spec_control().spec_stopped() ==> (res <==> self.spec_control().spec_bounces()
                < self.spec_control().spec_max_bounces()),
    {
        self.control.wants_cast()
    }

    /// The ray missed every surface: it records nothing more.
    pub fn miss(&mut self)
        requires
            old(self).wf(),
            old(self).spec_control().spec_wants_cast(),
        ensures
            final(self).wf(),
            final(self).spec_hits() == old(self).spec_hits(),
            final(self).spec_control().spec_max_bounces() == old(
                self,
            ).spec_control().spec_max_bounces(),
            final(self).spec_control().spec_bounces() == old(self).spec_control().spec_bounces(),
            final(self).spec_control().spec_stopped(),
    {
        self.control.record(BounceEvent::Missed);
    }

    /// The ray was reflected; `hit` is the pass near the microphone on the
    /// segment that led there, if it counts, and the ray is too quiet
    /// afterwards when `too_quiet` holds.
    pub fn reflect(&mut self, hit: Option<(D, P)>, too_quiet: bool)
        requires
            old(self).wf(),
            old(self).spec_control().spec_wants_cast(),
        ensures
            final(self).wf(),
            final(self).spec_hits() == old(self).spec_hits() + hit_seq(hit),
            final(self).spec_control().spec_max_bounces() == old(
                self,
            ).spec_control().spec_max_bounces(),
            final(self).spec_control().spec_bounces() == old(self).spec_control().spec_bounces()
                + 1,
            final(self).spec_control().spec_stopped() == too_quiet,
    {
        if let Some(h) = hit {
            self.hits.push(h);
        }
        self.control.record(BounceEvent::Reflected { too_quiet });
        proof {
            assert(self.hits@ =~= old(self).hits@ + hit_seq(hit));
        }
    }

    /// The hits recorded, in order: no more than the reflections made, and
    /// no more than the bounce budget.
    pub fn into_hits(self) -> (res: Vec<(D, P)>)
        requires
            self.wf(),
        ensures
            res@ == self.spec_hits(),
            res@.len() <= self.spec_control().spec_bounces(),
            res@.len() <= self.spec_control().spec_max_bounces(),
    {
        proof {
            use_type_invariant(&self.control);
        }
        self.hits
    }
}

} // verus!
