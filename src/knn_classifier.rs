use vstd::prelude::*;
use crate::counting::{
    count_where, lemma_count_all, lemma_count_ext, lemma_count_le, lemma_count_mono,
    lemma_count_none, lemma_count_pos, lemma_count_remove,
};
use crate::error::DatasetError;
use crate::knn_classifier_metrics::{Metric, dist, distance, lemma_metric_self_zero};
use crate::picture::{ClassifiedPicture, MAX_PIXELS, Picture, PictureClass};

verus! {

/// Reference `j` ranks before reference `i`: nearer, or as near and earlier.
pub open spec fn key_lt(d: Seq<nat>, j: int, i: int) -> bool {
    d[j] < d[i] || (d[j] == d[i] && j < i)
}

/// The references that rank before reference `i`.
pub open spec fn before(d: Seq<nat>, i: int) -> spec_fn(int) -> bool {
    |j: int| key_lt(d, j, i)
}

/// How many references rank before reference `i`.
pub open spec fn rank(d: Seq<nat>, i: int) -> nat {
    count_where(d.len() as int, before(d, i))
}

/// Reference `i` is among the `k` nearest, ties going to the earlier reference.
pub open spec fn is_neighbour(d: Seq<nat>, k: nat, i: int) -> bool {
    rank(d, i) < k
}

/// The neighbours whose label is `l`.
pub open spec fn has_label(d: Seq<nat>, labels: Seq<i32>, k: nat, l: i32) -> spec_fn(int) -> bool {
    |j: int| is_neighbour(d, k, j) && labels[j] == l
}

/// How many of the `k` nearest references carry label `l`.
pub open spec fn votes(d: Seq<nat>, labels: Seq<i32>, k: nat, l: i32) -> nat {
    count_where(d.len() as int, has_label(d, labels, k, l))
}

/// `r` is the label of a neighbour, no label has more votes, and no smaller label
/// has as many.
pub open spec fn is_knn_winner(d: Seq<nat>, labels: Seq<i32>, k: nat, r: i32) -> bool {
    &&& exists|j: int| 0 <= j < d.len() && is_neighbour(d, k, j) && labels[j] == r
    &&& forall|l: i32| #[trigger] votes(d, labels, k, l) <= votes(d, labels, k, r)
    &&& forall|l: i32| l < r ==> #[trigger] votes(d, labels, k, l) < votes(d, labels, k, r)
}

/// The label that a vote among the `k` nearest references returns.
pub open spec fn knn_label(d: Seq<nat>, labels: Seq<i32>, k: nat) -> i32 {
    choose|r: i32| is_knn_winner(d, labels, k, r)
}

/// Distance from each reference picture to the query.
pub open spec fn distances(train: Seq<ClassifiedPicture>, m: Metric, q: Seq<Seq<u8>>) -> Seq<nat> {
    Seq::new(train.len(), |i: int| dist(m, train[i].picture@, q))
}

/// The label of each reference.
pub open spec fn labels(train: Seq<ClassifiedPicture>) -> Seq<i32> {
    Seq::new(train.len(), |i: int| train[i].class.numerical_value)
}

/// Every picture is square with side `side`.
pub open spec fn same_side(train: Seq<ClassifiedPicture>, side: nat) -> bool {
    forall|i: int|
        0 <= i < train.len() ==> (#[trigger] train[i]).picture.wf() && train[i].picture.side() == side
}

/// All pictures share the first one's side, small enough for the metrics.
pub open spec fn pictures_fit(train: Seq<ClassifiedPicture>) -> bool {
    &&& same_side(train, train[0].picture.side())
    &&& train[0].picture.side() * train[0].picture.side() <= MAX_PIXELS
}

/// A vote has one winner at most.
pub proof fn lemma_winner_unique(d: Seq<nat>, labels: Seq<i32>, k: nat, r: i32)
    requires
        is_knn_winner(d, labels, k, r),
    ensures
        knn_label(d, labels, k) == r,
{
    let c = knn_label(d, labels, k);
    assert(is_knn_winner(d, labels, k, c));
    if c < r {
        assert(votes(d, labels, k, c) < votes(d, labels, k, r));
        assert(votes(d, labels, k, r) <= votes(d, labels, k, c));
    } else if r < c {
        assert(votes(d, labels, k, r) < votes(d, labels, k, c));
        assert(votes(d, labels, k, c) <= votes(d, labels, k, r));
    }
}

/// The distances as mathematical integers.
pub open spec fn as_nats(s: Seq<u64>) -> Seq<nat> {
    Seq::new(s.len(), |i: int| s[i] as nat)
}

/// The chosen references, as a predicate on indices.
pub open spec fn flagged(s: Seq<bool>) -> spec_fn(int) -> bool {
    |j: int| s[j]
}

/// Marks the `k` references that rank first: nearest, ties to the earlier one.
fn nearest_flags(dists: &Vec<u64>, k: usize) -> (r: Vec<bool>)
    requires
        k <= dists@.len(),
    ensures
        r@.len() == dists@.len(),
        forall|i: int| 0 <= i < r@.len() ==> #[trigger] r@[i] == is_neighbour(as_nats(dists@), k as nat, i),
        count_where(dists@.len() as int, flagged(r@)) == k,
{
    let n = dists.len();
    let ghost d = as_nats(dists@);
    let mut chosen: Vec<bool> = Vec::new();
    let mut i: usize = 0;
    while i < n
        invariant
            i <= n,
            chosen@.len() == i,
            forall|j: int| 0 <= j < i ==> !#[trigger] chosen@[j],
        decreases n - i,
    {
        chosen.push(false);
        i = i + 1;
    }
    proof {
        lemma_count_none(n as int, flagged(chosen@));
    }
    let mut p: usize = 0;
    while p < k
        invariant
            p <= k,
            k <= n,
            n == dists@.len(),
            d == as_nats(dists@),
            chosen@.len() == n,
            count_where(n as int, flagged(chosen@)) == p,
            forall|s: int, t: int|
                0 <= s < n && 0 <= t < n && #[trigger] chosen@[s] && !#[trigger] chosen@[t] ==> key_lt(d, s, t),
        decreases k - p,
    {
        let mut found = false;
        let mut b: usize = 0;
        let mut t: usize = 0;
        while t < n
            invariant
                t <= n,
                n == dists@.len(),
                d == as_nats(dists@),
                chosen@.len() == n,
                found ==> b < t && !chosen@[b as int],
                !found ==> forall|j: int| 0 <= j < t ==> #[trigger] chosen@[j],
                found ==> forall|j: int|
                    0 <= j < t && !#[trigger] chosen@[j] && j != b ==> key_lt(d, b as int, j),
            decreases n - t,
        {
            if !chosen[t] {
                if !found || dists[t] < dists[b] {
                    b = t;
                    found = true;
                }
            }
            t = t + 1;
        }
        if !found {
            proof {
                lemma_count_all(n as int, flagged(chosen@));
            }
            assert(false);
        }
        let ghost before_set = chosen@;
        chosen.set(b, true);
        proof {
            let q = flagged(chosen@);
            let rest = |j: int| q(j) && j != b;
            lemma_count_remove(n as int, q, rest, b as int);
            lemma_count_ext(n as int, rest, flagged(before_set));
            assert forall|s: int, t: int|
                0 <= s < n && 0 <= t < n && #[trigger] chosen@[s] && !#[trigger] chosen@[t] implies key_lt(d, s, t) by {
                if s != b {
                    assert(before_set[s] && !before_set[t]);
                }
            }
        }
        p = p + 1;
    }
    proof {
        assert(d.len() == n);
        assert(count_where(n as int, flagged(chosen@)) == k);
        assert forall|i: int| 0 <= i < n implies #[trigger] chosen@[i] == is_neighbour(d, k as nat, i) by {
            let ch = flagged(chosen@);
            assert(rank(d, i) == count_where(n as int, before(d, i)));
            if chosen@[i] {
                let others = |j: int| ch(j) && j != i;
                assert forall|j: int| 0 <= j < n && #[trigger] before(d, i)(j) implies others(j) by {
                    if !chosen@[j] {
                        assert(key_lt(d, i, j));
                    }
                }
                lemma_count_mono(n as int, before(d, i), others);
                lemma_count_remove(n as int, ch, others, i);
            } else {
                assert forall|j: int| 0 <= j < n && #[trigger] ch(j) implies before(d, i)(j) by {
                    assert(chosen@[j] && !chosen@[i]);
                }
                lemma_count_mono(n as int, ch, before(d, i));
            }
        }
    }
    chosen
}

/// The label that most flagged references carry, the smallest one on a tie.
fn vote(flags: &Vec<bool>, labs: &Vec<i32>, d: Ghost<Seq<nat>>, k: usize) -> (r: i32)
    requires
        flags@.len() == labs@.len(),
        d@.len() == labs@.len(),
        1 <= k,
        forall|i: int| 0 <= i < flags@.len() ==> #[trigger] flags@[i] == is_neighbour(d@, k as nat, i),
        count_where(flags@.len() as int, flagged(flags@)) == k,
    ensures
        is_knn_winner(d@, labs@, k as nat, r),
{
    let n = flags.len();
    let mut found = false;
    let mut best_l: i32 = 0;
    let mut best_v: usize = 0;
    let mut i: usize = 0;
    while i < n
        invariant
            i <= n,
            n == flags@.len(),
            labs@.len() == n,
            d@.len() == n,
            forall|j: int| 0 <= j < n ==> #[trigger] flags@[j] == is_neighbour(d@, k as nat, j),
            !found ==> forall|j: int| 0 <= j < i ==> !#[trigger] flags@[j],
            found ==> exists|j: int| 0 <= j < i && flags@[j] && labs@[j] == best_l,
            found ==> best_v == votes(d@, labs@, k as nat, best_l),
            forall|j: int|
                0 <= j < i && #[trigger] flags@[j] ==> found && votes(d@, labs@, k as nat, labs@[j])
                    <= best_v && (votes(d@, labs@, k as nat, labs@[j]) == best_v ==> best_l <= labs@[j]),
        decreases n - i,
    {
        if flags[i] {
            let l = labs[i];
            let mut v: usize = 0;
            let mut t: usize = 0;
            while t < n
                invariant
                    t <= n,
                    n == flags@.len(),
                    labs@.len() == n,
                    d@.len() == n,
                    forall|j: int| 0 <= j < n ==> #[trigger] flags@[j] == is_neighbour(d@, k as nat, j),
                    v == count_where(t as int, has_label(d@, labs@, k as nat, l)),
                    v <= t,
                decreases n - t,
            {
                if flags[t] && labs[t] == l {
                    v = v + 1;
                }
                t = t + 1;
            }
            assert(v == votes(d@, labs@, k as nat, l));
            if !found || v > best_v || (v == best_v && l < best_l) {
                best_l = l;
                best_v = v;
                found = true;
            }
        }
        i = i + 1;
    }
    if !found {
        proof {
            lemma_count_none(n as int, flagged(flags@));
        }
        assert(false);
    }
    proof {
        let jb = choose|j: int| 0 <= j < n && flags@[j] && labs@[j] == best_l;
        lemma_count_pos(n as int, has_label(d@, labs@, k as nat, best_l), jb);
        assert forall|l: i32|
            #[trigger] votes(d@, labs@, k as nat, l) <= votes(d@, labs@, k as nat, best_l) && (l < best_l
                ==> votes(d@, labs@, k as nat, l) < votes(d@, labs@, k as nat, best_l)) by {
            if exists|j: int| 0 <= j < n && flags@[j] && labs@[j] == l {
                let j = choose|j: int| 0 <= j < n && flags@[j] && labs@[j] == l;
                assert(flags@[j]);
            } else {
                assert forall|j: int| 0 <= j < n implies !#[trigger] has_label(d@, labs@, k as nat, l)(j) by {
                    assert(!(flags@[j] && labs@[j] == l));
                }
                lemma_count_none(n as int, has_label(d@, labs@, k as nat, l));
            }
        }
        assert(is_neighbour(d@, k as nat, jb));
    }
    best_l
}

/// A reference picture, queried against its own reference set with one
/// neighbour, gets its own label back, provided every reference at distance zero
/// from it carries that label.
pub proof fn lemma_self_match(train: Seq<ClassifiedPicture>, m: Metric, i: int)
    requires
        0 <= i < train.len(),
        forall|j: int|
            0 <= j < train.len() && dist(m, #[trigger] train[j].picture@, train[i].picture@) == 0
                ==> train[j].class == train[i].class,
    ensures
        forall|r: i32|
            is_knn_winner(distances(train, m, train[i].picture@), labels(train), 1, r) ==> r
                == train[i].class.numerical_value,
{
    let d = distances(train, m, train[i].picture@);
    lemma_metric_self_zero(m, train[i].picture@);
    assert(d[i] == 0);
    assert forall|r: i32| is_knn_winner(d, labels(train), 1, r) implies r == train[i].class.numerical_value by {
        let j = choose|j: int| 0 <= j < d.len() && is_neighbour(d, 1, j) && labels(train)[j] == r;
        if key_lt(d, i, j) {
            lemma_count_pos(d.len() as int, before(d, j), i);
        }
        assert(d[j] == 0);
        assert(dist(m, train[j].picture@, train[i].picture@) == 0);
    }
}

/// Classifies a picture by a vote among the `k` nearest reference pictures.
pub struct KnnClassifier {
    pub train_vector: Vec<ClassifiedPicture>,
    pub metrics_function: Metric,
    pub k: usize,
}

impl KnnClassifier {
    /// Side of the reference pictures.
    pub open spec fn side(&self) -> nat {
        self.train_vector@[0].picture.side()
    }

    pub open spec fn wf(&self) -> bool {
        &&& 1 <= self.k <= self.train_vector@.len()
        &&& pictures_fit(self.train_vector@)
    }

    /// The label that `classify` gives a query.
    pub open spec fn predict(&self, q: Seq<Seq<u8>>) -> i32 {
        knn_label(
            distances(self.train_vector@, self.metrics_function, q),
            labels(self.train_vector@),
            self.k as nat,
        )
    }

    /// Builds a classifier, refusing a neighbour count outside `1..=n` and
    /// reference pictures that are not square or not of one side.
    pub fn create(train_vector: Vec<ClassifiedPicture>, metrics_function: Metric, k: usize) -> (r:
        Result<KnnClassifier, DatasetError>)
        ensures
            !(1 <= k <= train_vector@.len()) ==> r == Err::<KnnClassifier, DatasetError>(
                DatasetError::InvalidK,
            ),
            1 <= k <= train_vector@.len() && !pictures_fit(train_vector@) ==> r == Err::<
                KnnClassifier,
                DatasetError,
            >(DatasetError::ResolutionMismatch),
            1 <= k <= train_vector@.len() && pictures_fit(train_vector@) ==> r is Ok,
            r matches Ok(c) ==> c.wf() && c.train_vector@ == train_vector@ && c.metrics_function
                == metrics_function && c.k == k,
    {
        let n = train_vector.len();
        if k == 0 || k > n {
            return Err(DatasetError::InvalidK);
        }
        let side = train_vector[0].picture.side_length();
        if side > 0 && side as u64 > MAX_PIXELS / (side as u64) {
            assert(side * side > MAX_PIXELS) by (nonlinear_arith)
                requires side > (MAX_PIXELS as int) / (side as int), side > 0;
            return Err(DatasetError::ResolutionMismatch);
        }
        assert(side * side <= MAX_PIXELS) by (nonlinear_arith)
            requires side == 0 || side <= (MAX_PIXELS as int) / (side as int);
        let mut i: usize = 0;
        while i < n
            invariant
                i <= n,
                1 <= k <= n,
                n == train_vector@.len(),
                side == train_vector@[0].picture.side(),
                side * side <= MAX_PIXELS,
                forall|j: int|
                    0 <= j < i ==> (#[trigger] train_vector@[j]).picture.wf()
                        && train_vector@[j].picture.side() == side,
            decreases n - i,
        {
            let p = &train_vector[i].picture;
            if !p.is_square() || p.side_length() != side {
                return Err(DatasetError::ResolutionMismatch);
            }
            i = i + 1;
        }
        Ok(KnnClassifier { train_vector, metrics_function, k })
    }

    /// The label that most of the `k` reference pictures nearest to `input_pic`
    /// carry; nearer references and, among equally near ones, earlier ones come
    /// first, and a tie between labels goes to the smallest label.
    pub fn classify(&self, input_pic: &Picture) -> (r: PictureClass)
        requires
            self.wf(),
            input_pic.wf(),
            input_pic.side() == self.side(),
        ensures
            r.numerical_value == self.predict(input_pic@),
            is_knn_winner(
                distances(self.train_vector@, self.metrics_function, input_pic@),
                labels(self.train_vector@),
                self.k as nat,
                r.numerical_value,
            ),
    {
        let ghost d = distances(self.train_vector@, self.metrics_function, input_pic@);
        let ghost ls = labels(self.train_vector@);
        let n = self.train_vector.len();
        let mut dists: Vec<u64> = Vec::new();
        let mut labs: Vec<i32> = Vec::new();
        let mut i: usize = 0;
        while i < n
            invariant
                i <= n,
                n == self.train_vector@.len(),
                self.wf(),
                input_pic.wf(),
                input_pic.side() == self.side(),
                d == distances(self.train_vector@, self.metrics_function, input_pic@),
                ls == labels(self.train_vector@),
                dists@.len() == i,
                labs@.len() == i,
                forall|j: int| 0 <= j < i ==> #[trigger] dists@[j] as nat == d[j],
                forall|j: int| 0 <= j < i ==> #[trigger] labs@[j] == ls[j],
            decreases n - i,
        {
            let rec = &self.train_vector[i];
            assert(rec.picture.wf() && rec.picture.side() == self.side());
            let v = distance(self.metrics_function, &rec.picture, input_pic);
            dists.push(v);
            labs.push(rec.class.numerical_value);
            i = i + 1;
        }
        assert(as_nats(dists@) =~= d);
        assert(labs@ =~= ls);
        let flags = nearest_flags(&dists, self.k);
        let l = vote(&flags, &labs, Ghost(d), self.k);
        proof {
            lemma_winner_unique(d, ls, self.k as nat, l);
        }
        PictureClass { numerical_value: l }
    }
}


/// One cell of the confusion table: of the `total` queries whose true label is
/// `true_label`, `hits` were classified as `predicted_label`. The rate is
/// `hits / total`, undefined when `total` is zero.
#[derive(Debug, Clone, Copy, PartialEq, Eq, Structural)]
pub struct ConfusionEntry {
    pub true_label: PictureClass,
    pub predicted_label: PictureClass,
    pub hits: usize,
    pub total: usize,
}

/// Queries whose true label is `t` and that are classified as `p`.
pub open spec fn hit_pred(cls: KnnClassifier, qs: Seq<ClassifiedPicture>, t: int, p: int) -> spec_fn(int) -> bool {
    |q: int| qs[q].class.numerical_value == t && cls.predict(qs[q].picture@) == p
}

/// Queries whose true label is `t`.
pub open spec fn label_pred(qs: Seq<ClassifiedPicture>, t: int) -> spec_fn(int) -> bool {
    |q: int| qs[q].class.numerical_value == t
}

/// How many queries with true label `t` are classified as `p`.
pub open spec fn tally(cls: KnnClassifier, qs: Seq<ClassifiedPicture>, t: int, p: int) -> nat {
    count_where(qs.len() as int, hit_pred(cls, qs, t, p))
}

/// How many queries have true label `t`.
pub open spec fn total(qs: Seq<ClassifiedPicture>, t: int) -> nat {
    count_where(qs.len() as int, label_pred(qs, t))
}

/// Every query's true label and predicted label lie in `0..c`.
pub open spec fn labels_in_range(cls: KnnClassifier, qs: Seq<ClassifiedPicture>, c: int) -> bool {
    forall|q: int|
        0 <= q < qs.len() ==> 0 <= (#[trigger] qs[q]).class.numerical_value < c && 0 <= cls.predict(
            qs[q].picture@,
        ) < c
}

/// Sum over predicted labels `0..m` of the hits of the first `n` queries.
pub open spec fn row_hits(cls: KnnClassifier, qs: Seq<ClassifiedPicture>, t: int, n: int, m: int) -> nat
    decreases m,
{
    if m <= 0 {
        0
    } else {
        row_hits(cls, qs, t, n, m - 1) + count_where(n, hit_pred(cls, qs, t, m - 1))
    }
}

proof fn lemma_row_hits_step(cls: KnnClassifier, qs: Seq<ClassifiedPicture>, t: int, n: int, m: int)
    requires
        n >= 1,
        m >= 0,
    ensures
        row_hits(cls, qs, t, n, m) == row_hits(cls, qs, t, n - 1, m) + if qs[n - 1].class.numerical_value
            == t && 0 <= cls.predict(qs[n - 1].picture@) < m {
            1nat
        } else {
            0nat
        },
    decreases m,
{
    if m > 0 {
        lemma_row_hits_step(cls, qs, t, n, m - 1);
    }
}

proof fn lemma_row_hits_empty(cls: KnnClassifier, qs: Seq<ClassifiedPicture>, t: int, m: int)
    ensures
        row_hits(cls, qs, t, 0, m) == 0,
    decreases m,
{
    if m > 0 {
        lemma_row_hits_empty(cls, qs, t, m - 1);
    }
}

proof fn lemma_row_hits_total(cls: KnnClassifier, qs: Seq<ClassifiedPicture>, t: int, c: int, n: int)
    requires
        0 <= n <= qs.len(),
        c >= 0,
        labels_in_range(cls, qs, c),
    ensures
        row_hits(cls, qs, t, n, c) == count_where(n, label_pred(qs, t)),
    decreases n,
{
    if n > 0 {
        lemma_row_hits_total(cls, qs, t, c, n - 1);
        lemma_row_hits_step(cls, qs, t, n, c);
        assert(0 <= qs[n - 1].class.numerical_value < c);
        assert(0 <= cls.predict(qs[n - 1].picture@) < c);
        assert(label_pred(qs, t)(n - 1) == (qs[n - 1].class.numerical_value == t));
    } else {
        lemma_row_hits_empty(cls, qs, t, c);
    }
}

/// For each true label, the hits over all predicted labels add up to the number of
/// queries with that label, so the rates of a row with a query sum to one.
pub proof fn lemma_confusion_rows_sum(cls: KnnClassifier, qs: Seq<ClassifiedPicture>, c: int, t: int)
    requires
        c >= 0,
        labels_in_range(cls, qs, c),
    ensures
        row_hits(cls, qs, t, qs.len() as int, c) == total(qs, t),
{
    lemma_row_hits_total(cls, qs, t, c, qs.len() as int);
}

/// Entry `i` of a table over `c` labels is the cell of true label `i / c` and
/// predicted label `i % c`.
pub open spec fn entry_ok(cls: KnnClassifier, qs: Seq<ClassifiedPicture>, c: int, i: int, e: ConfusionEntry) -> bool {
    &&& e.true_label.numerical_value == i / c
    &&& e.predicted_label.numerical_value == i % c
    &&& e.hits == tally(cls, qs, i / c, i % c)
    &&& e.total == total(qs, i / c)
}

fn zeros(n: usize) -> (r: Vec<usize>)
    ensures
        r@.len() == n,
        forall|i: int| 0 <= i < n ==> #[trigger] r@[i] == 0,
{
    let mut v: Vec<usize> = Vec::new();
    let mut i: usize = 0;
    while i < n
        invariant
            i <= n,
            v@.len() == i,
            forall|j: int| 0 <= j < i ==> #[trigger] v@[j] == 0,
        decreases n - i,
    {
        v.push(0);
        i = i + 1;
    }
    v
}

/// Classifies every query and counts, for each pair of true and predicted label in
/// `0..classes`, the queries that fall in it; entries are ordered by true label,
/// then by predicted label.
pub fn get_error_matrix(classifier: &KnnClassifier, test_vector: &Vec<ClassifiedPicture>, classes: usize) -> (r:
    Result<Vec<ConfusionEntry>, DatasetError>)
    requires
        classifier.wf(),
        classes * classes <= usize::MAX,
        classes <= 2147483648,
    ensures
        !same_side(test_vector@, classifier.side()) ==> r == Err::<Vec<ConfusionEntry>, DatasetError>(
            DatasetError::ResolutionMismatch,
        ),
        same_side(test_vector@, classifier.side()) && !labels_in_range(
            *classifier,
            test_vector@,
            classes as int,
        ) ==> r == Err::<Vec<ConfusionEntry>, DatasetError>(DatasetError::OutOfRangeLabel),
        same_side(test_vector@, classifier.side()) && labels_in_range(
            *classifier,
            test_vector@,
            classes as int,
        ) ==> r is Ok,
        r matches Ok(v) ==> v@.len() == classes * classes && forall|i: int|
            0 <= i < v@.len() ==> entry_ok(*classifier, test_vector@, classes as int, i, #[trigger] v@[i]),
{
    let ghost qs = test_vector@;
    let ghost cls = *classifier;
    let ghost c = classes as int;
    let n = test_vector.len();
    let side = classifier.train_vector[0].picture.side_length();
    let mut q: usize = 0;
    while q < n
        invariant
            q <= n,
            n == qs.len(),
            qs == test_vector@,
            side == classifier.side(),
            forall|j: int|
                0 <= j < q ==> (#[trigger] qs[j]).picture.wf() && qs[j].picture.side() == side,
        decreases n - q,
    {
        let p = &test_vector[q].picture;
        if !p.is_square() || p.side_length() != side {
            return Err(DatasetError::ResolutionMismatch);
        }
        q = q + 1;
    }
    let cc = classes * classes;
    let mut hits = zeros(cc);
    let mut totals = zeros(classes);
    proof {
        assert forall|i: int| 0 <= i < cc implies #[trigger] hits@[i] == count_where(0, hit_pred(cls, qs, i / c, i % c)) by {}
        assert forall|t: int| 0 <= t < c implies #[trigger] totals@[t] == count_where(0, label_pred(qs, t)) by {}
    }
    q = 0;
    while q < n
        invariant
            q <= n,
            n == qs.len(),
            qs == test_vector@,
            cls == *classifier,
            c == classes,
            classifier.wf(),
            side == classifier.side(),
            same_side(qs, side as nat),
            cc == classes * classes,
            hits@.len() == cc,
            totals@.len() == classes,
            forall|i: int| 0 <= i < cc ==> #[trigger] hits@[i] == count_where(q as int, hit_pred(cls, qs, i / c, i % c)),
            forall|t: int| 0 <= t < c ==> #[trigger] totals@[t] == count_where(q as int, label_pred(qs, t)),
            forall|j: int|
                0 <= j < q ==> 0 <= (#[trigger] qs[j]).class.numerical_value < c && 0 <= cls.predict(qs[j].picture@) < c,
        decreases n - q,
    {
        let rec = &test_vector[q];
        let l = rec.class.numerical_value;
        if l < 0 || l as usize >= classes {
            return Err(DatasetError::OutOfRangeLabel);
        }
        assert(rec.picture.wf() && rec.picture.side() == side);
        let pr = classifier.classify(&rec.picture).numerical_value;
        if pr < 0 || pr as usize >= classes {
            return Err(DatasetError::OutOfRangeLabel);
        }
        let t = l as usize;
        let p = pr as usize;
        assert(t * classes + p < cc) by (nonlinear_arith)
            requires t < classes, p < classes, cc == classes * classes;
        let idx = t * classes + p;
        proof {
            vstd::arithmetic::div_mod::lemma_fundamental_div_mod_converse(idx as int, c, t as int, p as int);
            lemma_count_le(q as int, hit_pred(cls, qs, t as int, p as int));
            lemma_count_le(q as int, label_pred(qs, t as int));
        }
        let ghost old_hits = hits@;
        let ghost old_totals = totals@;
        hits.set(idx, hits[idx] + 1);
        totals.set(t, totals[t] + 1);
        proof {
            assert forall|i: int| 0 <= i < cc implies #[trigger] hits@[i] == count_where(
                q + 1,
                hit_pred(cls, qs, i / c, i % c),
            ) by {
                vstd::arithmetic::div_mod::lemma_fundamental_div_mod(i, c);
                assert(old_hits[i] == count_where(q as int, hit_pred(cls, qs, i / c, i % c)));
                if i != idx {
                    if hit_pred(cls, qs, i / c, i % c)(q as int) {
                        assert(i / c == t && i % c == p);
                    }
                }
            }
            assert forall|t2: int| 0 <= t2 < c implies #[trigger] totals@[t2] == count_where(
                q + 1,
                label_pred(qs, t2),
            ) by {
                assert(old_totals[t2] == count_where(q as int, label_pred(qs, t2)));
            }
        }
        q = q + 1;
    }
    let mut out: Vec<ConfusionEntry> = Vec::new();
    let mut t: usize = 0;
    while t < classes
        invariant
            t <= classes,
            classes <= 2147483648,
            qs == test_vector@,
            cls == *classifier,
            c == classes,
            n == qs.len(),
            cc == classes * classes,
            hits@.len() == cc,
            totals@.len() == classes,
            forall|i: int| 0 <= i < cc ==> #[trigger] hits@[i] == count_where(n as int, hit_pred(cls, qs, i / c, i % c)),
            forall|t: int| 0 <= t < c ==> #[trigger] totals@[t] == count_where(n as int, label_pred(qs, t)),
            out@.len() == t * classes,
            forall|i: int| 0 <= i < out@.len() ==> entry_ok(cls, qs, c, i, #[trigger] out@[i]),
        decreases classes - t,
    {
        let mut p: usize = 0;
        while p < classes
            invariant
                t < classes,
                p <= classes,
                qs == test_vector@,
                cls == *classifier,
                c == classes,
                n == qs.len(),
                cc == classes * classes,
                classes <= 2147483648,
                hits@.len() == cc,
                totals@.len() == classes,
                forall|i: int| 0 <= i < cc ==> #[trigger] hits@[i] == count_where(n as int, hit_pred(cls, qs, i / c, i % c)),
                forall|t: int| 0 <= t < c ==> #[trigger] totals@[t] == count_where(n as int, label_pred(qs, t)),
                out@.len() == t * classes + p,
                forall|i: int| 0 <= i < out@.len() ==> entry_ok(cls, qs, c, i, #[trigger] out@[i]),
            decreases classes - p,
        {
            assert(t * classes + p < cc) by (nonlinear_arith)
                requires t < classes, p < classes, cc == classes * classes;
            let idx = t * classes + p;
            proof {
                vstd::arithmetic::div_mod::lemma_fundamental_div_mod_converse(idx as int, c, t as int, p as int);
            }
            out.push(ConfusionEntry {
                true_label: PictureClass { numerical_value: t as i32 },
                predicted_label: PictureClass { numerical_value: p as i32 },
                hits: hits[idx],
                total: totals[t],
            });
            p = p + 1;
        }
        assert(out@.len() == (t + 1) * classes) by (nonlinear_arith)
            requires out@.len() == t * classes + classes;
        t = t + 1;
    }
    Ok(out)
}

} // verus!
