use vstd::prelude::*;
use crate::dataset_transformer_fn::{
    binarize, bw, centres_of, draws_below, draws_shaped, kept_or_saturated, linear_noise, nonlinear_noise,
    radial_noise_of,
};
use crate::picture::{ClassifiedPicture, MAX_PIXELS, is_square};

verus! {

/// A transform of one classified picture into another of the same class.
#[derive(Debug, Clone, Copy, PartialEq, Eq, Structural)]
pub enum Mutator {
    /// `bw`: every non-zero sample becomes 255.
    Bw,
    /// `linear_noise`: each sample becomes 255 with chance `1 / rand_range`.
    LinearNoise { rand_range: usize },
    /// `nonlinear_noise`: centres drawn with chance `1 / rand_range` brighten the
    /// samples within radius `noise_r`.
    NonlinearNoise { rand_range: usize, noise_r: usize },
}

/// The mutator's parameters are usable.
pub open spec fn mutator_valid(m: Mutator) -> bool {
    match m {
        Mutator::Bw => true,
        Mutator::LinearNoise { rand_range } => rand_range > 0,
        Mutator::NonlinearNoise { rand_range, noise_r } => rand_range > 0 && noise_r > 0,
    }
}

/// `b` is an outcome of applying `m` to `a`.
pub open spec fn step_ok(m: Mutator, a: Seq<Seq<u8>>, b: Seq<Seq<u8>>) -> bool {
    match m {
        Mutator::Bw => b == binarize(a),
        Mutator::LinearNoise { rand_range } => kept_or_saturated(a, b),
        Mutator::NonlinearNoise { rand_range, noise_r } => exists|ds: Seq<Seq<usize>>|
            draws_shaped(ds, a) && draws_below(ds, rand_range as nat) && b == radial_noise_of(
                a,
                centres_of(ds),
                noise_r as nat,
            ),
    }
}

/// `states` runs from `a` through one outcome of each mutator of `ms` in turn.
pub open spec fn is_trace(ms: Seq<Mutator>, states: Seq<Seq<Seq<u8>>>, a: Seq<Seq<u8>>) -> bool {
    &&& states.len() == ms.len() + 1
    &&& states[0] == a
    &&& forall|k: int| 0 <= k < ms.len() ==> step_ok(#[trigger] ms[k], states[k], states[k + 1])
}

/// `b` is an outcome of applying the mutators of `ms` to `a`, first to last.
pub open spec fn chain_ok(ms: Seq<Mutator>, a: Seq<Seq<u8>>, b: Seq<Seq<u8>>) -> bool {
    exists|states: Seq<Seq<Seq<u8>>>| #[trigger] is_trace(ms, states, a) && states.last() == b
}

/// A picture that every mutator accepts: square, and small enough for the noise.
pub open spec fn fits(p: ClassifiedPicture) -> bool {
    p.picture.wf() && p.picture.side() * p.picture.side() <= MAX_PIXELS
}

/// Applies one mutator.
pub fn apply_mutator(m: Mutator, input: ClassifiedPicture) -> (r: ClassifiedPicture)
    requires
        mutator_valid(m),
        fits(input),
    ensures
        r.class == input.class,
        fits(r),
        r.picture.side() == input.picture.side(),
        step_ok(m, input.picture@, r.picture@),
{
    let ghost g = input.picture@;
    let ghost side = input.picture.side();
    let r = match m {
        Mutator::Bw => bw(input),
        Mutator::LinearNoise { rand_range } => linear_noise(input, rand_range),
        Mutator::NonlinearNoise { rand_range, noise_r } => nonlinear_noise(input, rand_range, noise_r),
    };
    proof {
        assert(r.picture.side() == r.picture@.len());
        assert(g.len() == side);
        match m {
            Mutator::Bw => {
                assert(is_square(r.picture@)) by {
                    assert forall|i: int| 0 <= i < r.picture@.len() implies #[trigger] r.picture@[i].len()
                        == r.picture@.len() by {
                        assert(g[i].len() == g.len());
                    }
                }
            },
            Mutator::LinearNoise { rand_range } => {
                assert(is_square(r.picture@)) by {
                    assert forall|i: int| 0 <= i < r.picture@.len() implies #[trigger] r.picture@[i].len()
                        == r.picture@.len() by {
                        assert(g[i].len() == g.len());
                    }
                }
            },
            Mutator::NonlinearNoise { rand_range, noise_r } => {
                let ds = choose|ds: Seq<Seq<usize>>|
                    draws_shaped(ds, g) && draws_below(ds, rand_range as nat) && r.picture@
                        == radial_noise_of(g, centres_of(ds), noise_r as nat);
                assert(is_square(r.picture@)) by {
                    assert forall|i: int| 0 <= i < r.picture@.len() implies #[trigger] r.picture@[i].len()
                        == r.picture@.len() by {
                        assert(g[i].len() == g.len());
                    }
                }
            },
        }
    }
    r
}

/// A dataset together with the mutators queued to run over it.
pub struct PictureVectorTransformer {
    picture_vector: Vec<ClassifiedPicture>,
    queued_functions: Vec<Mutator>,
}

impl PictureVectorTransformer {
    /// The pictures to transform.
    pub closed spec fn pictures(&self) -> Seq<ClassifiedPicture> {
        self.picture_vector@
    }

    /// The queued mutators, first to run first.
    pub closed spec fn mutators(&self) -> Seq<Mutator> {
        self.queued_functions@
    }

    /// A transformer over `transforming_vec` with nothing queued.
    pub fn create(transforming_vec: Vec<ClassifiedPicture>) -> (r: PictureVectorTransformer)
        ensures
            r.pictures() == transforming_vec@,
            r.mutators() == Seq::<Mutator>::empty(),
    {
        PictureVectorTransformer { picture_vector: transforming_vec, queued_functions: Vec::new() }
    }

    /// Queues `mutator` after those already queued.
    pub fn add_mutator(&mut self, mutator: Mutator)
        ensures
            final(self).pictures() == old(self).pictures(),
            final(self).mutators() == old(self).mutators().push(mutator),
    {
        self.queued_functions.push(mutator);
    }
}

/// Runs every queued mutator over one picture.
fn apply_all(ms: &Vec<Mutator>, input: ClassifiedPicture) -> (r: ClassifiedPicture)
    requires
        forall|k: int| 0 <= k < ms@.len() ==> mutator_valid(#[trigger] ms@[k]),
        fits(input),
    ensures
        r.class == input.class,
        chain_ok(ms@, input.picture@, r.picture@),
{
    let ghost a = input.picture@;
    let ghost side = input.picture.side();
    let ghost class = input.class;
    let mut cur = input;
    let ghost mut states: Seq<Seq<Seq<u8>>> = seq![a];
    let mut p: usize = 0;
    while p < ms.len()
        invariant
            p <= ms@.len(),
            forall|k: int| 0 <= k < ms@.len() ==> mutator_valid(#[trigger] ms@[k]),
            fits(cur),
            cur.picture.side() == side,
            cur.class == class,
            is_trace(ms@.take(p as int), states, a),
            states.last() == cur.picture@,
        decreases ms@.len() - p,
    {
        let ghost before = cur.picture@;
        let next = apply_mutator(ms[p], cur);
        proof {
            let old_states = states;
            states = states.push(next.picture@);
            assert forall|k: int| 0 <= k < p + 1 implies step_ok(
                #[trigger] ms@.take(p as int + 1)[k],
                states[k],
                states[k + 1],
            ) by {
                if k < p {
                    assert(ms@.take(p as int)[k] == ms@.take(p as int + 1)[k]);
                    assert(step_ok(ms@.take(p as int)[k], old_states[k], old_states[k + 1]));
                }
            }
        }
        cur = next;
        p = p + 1;
    }
    assert(ms@.take(ms@.len() as int) =~= ms@);
    assert(is_trace(ms@, states, a));
    cur
}

/// Runs the queued mutators over every picture, keeping the order of the pictures.
pub fn run_transformer(transformer: PictureVectorTransformer) -> (r: Vec<ClassifiedPicture>)
    requires
        forall|k: int| 0 <= k < transformer.mutators().len() ==> mutator_valid(#[trigger] transformer.mutators()[k]),
        forall|k: int| 0 <= k < transformer.pictures().len() ==> fits(#[trigger] transformer.pictures()[k]),
    ensures
        r@.len() == transformer.pictures().len(),
        forall|k: int|
            0 <= k < r@.len() ==> (#[trigger] r@[k]).class == transformer.pictures()[k].class && chain_ok(
                transformer.mutators(),
                transformer.pictures()[k].picture@,
                r@[k].picture@,
            ),
{
    assert(transformer.pictures() == transformer.picture_vector@);
    assert(transformer.mutators() == transformer.queued_functions@);
    let PictureVectorTransformer { picture_vector, queued_functions } = transformer;
    let mut pending = picture_vector;
    let ghost pics = pending@;
    let n = pending.len();
    let mut reversed: Vec<ClassifiedPicture> = Vec::new();
    while pending.len() > 0
        invariant
            n == pics.len(),
            pending@ == pics.subrange(0, pending@.len() as int),
            reversed@.len() + pending@.len() == n,
            forall|k: int| 0 <= k < queued_functions@.len() ==> mutator_valid(#[trigger] queued_functions@[k]),
            forall|k: int| 0 <= k < pics.len() ==> fits(#[trigger] pics[k]),
            forall|k: int|
                0 <= k < reversed@.len() ==> (#[trigger] reversed@[k]).class == pics[n - 1 - k].class
                    && chain_ok(queued_functions@, pics[n - 1 - k].picture@, reversed@[k].picture@),
        decreases pending@.len(),
    {
        let ghost idx = pending@.len() - 1;
        let p = pending.pop().unwrap();
        assert(p == pics[idx]);
        let q = apply_all(&queued_functions, p);
        reversed.push(q);
    }
    let mut out: Vec<ClassifiedPicture> = Vec::new();
    while reversed.len() > 0
        invariant
            n == pics.len(),
            reversed@.len() + out@.len() == n,
            forall|k: int|
                0 <= k < reversed@.len() ==> (#[trigger] reversed@[k]).class == pics[n - 1 - k].class
                    && chain_ok(queued_functions@, pics[n - 1 - k].picture@, reversed@[k].picture@),
            forall|k: int|
                0 <= k < out@.len() ==> (#[trigger] out@[k]).class == pics[k].class && chain_ok(
                    queued_functions@,
                    pics[k].picture@,
                    out@[k].picture@,
                ),
        decreases reversed@.len(),
    {
        let q = reversed.pop().unwrap();
        out.push(q);
    }
    out
}


/// Radius of the clustered noise that `normalize` adds.
pub const NORMALIZE_NOISE_RADIUS: usize = 3;

/// One sample in this many becomes a noise centre in `normalize`.
pub const NORMALIZE_NOISE_RANGE: usize = 128;

/// Binarizes every picture and then adds clustered noise to it.
pub fn normalize(dataset: Vec<ClassifiedPicture>) -> (r: Vec<ClassifiedPicture>)
    requires
        forall|k: int| 0 <= k < dataset@.len() ==> fits(#[trigger] dataset@[k]),
    ensures
        r@.len() == dataset@.len(),
        forall|k: int|
            0 <= k < r@.len() ==> (#[trigger] r@[k]).class == dataset@[k].class && chain_ok(
                seq![
                    Mutator::Bw,
                    (Mutator::NonlinearNoise {
                        rand_range: NORMALIZE_NOISE_RANGE,
                        noise_r: NORMALIZE_NOISE_RADIUS,
                    }),
                ],
                dataset@[k].picture@,
                r@[k].picture@,
            ),
{
    let mut transformer = PictureVectorTransformer::create(dataset);
    transformer.add_mutator(Mutator::Bw);
    transformer.add_mutator(
        Mutator::NonlinearNoise { rand_range: NORMALIZE_NOISE_RANGE, noise_r: NORMALIZE_NOISE_RADIUS },
    );
    assert(transformer.mutators() =~= seq![
        Mutator::Bw,
        Mutator::NonlinearNoise { rand_range: NORMALIZE_NOISE_RANGE, noise_r: NORMALIZE_NOISE_RADIUS },
    ]);
    run_transformer(transformer)
}

} // verus!
