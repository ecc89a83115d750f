//! Learning: what ordinary requests look like, and a model that tells others from them.
use super::agent::RequestFeatures;
use crate::binary64;
use crate::binary64::Binary64;
use crate::clock;
use crate::clock::Timestamp;
use crate::config::ProxyConfig;
use crate::precision;
use crate::text;
use std::collections::VecDeque;
use std::sync::Arc;
use vstd::prelude::*;

verus! {

/// How many entries a feature vector has.
pub const DIMENSIONS: usize = 10;

/// How many requests are kept to train with.
pub const KEPT_REQUESTS: usize = 10000;

/// After how many requests a model is trained anew.
pub const TRAINING_INTERVAL: usize = 1000;

/// With how few requests nothing is said and nothing trained.
pub const ENOUGH_SAMPLES: usize = 100;

/// How often a training goes through the requests.
pub const EPOCHS: u32 = 100;

#[derive(Debug)]
pub struct LearningModel {
    pub model_type: ModelType,
    pub parameters: Vec<Binary64>,
    pub accuracy: Binary64,
    pub training_samples: usize,
    pub last_updated: Timestamp,
}

#[derive(Debug, Clone, Copy, PartialEq, Eq, Structural)]
pub enum ModelType {
    LinearRegression,
    LogisticRegression,
    DecisionTree,
    NeuralNetwork,
}

#[derive(Debug)]
pub struct TrainingData {
    pub features: RequestFeatures,
    /// Zero for an ordinary request, one for an anomaly.
    pub label: Binary64,
    pub weight: Binary64,
}

/// Means and standard deviations of what requests came to.
#[derive(Debug, Clone, Copy, PartialEq, Eq, Structural)]
pub struct FeatureStatistics {
    pub response_time_mean: Binary64,
    pub response_time_std: Binary64,
    pub request_size_mean: Binary64,
    pub request_size_std: Binary64,
    pub response_size_mean: Binary64,
    pub response_size_std: Binary64,
    pub sample_count: usize,
}

pub open spec fn zero() -> Binary64 {
    Binary64 { bits: 0 }
}

pub open spec fn one() -> Binary64 {
    Binary64::one()
}

/// Zero or one.
pub open spec fn flag(b: bool) -> Binary64 {
    if b {
        one()
    } else {
        zero()
    }
}

pub open spec fn difference(x: Binary64, y: Binary64) -> Binary64 {
    x.sum(y.opposite())
}

/// The statistics of no requests.
pub open spec fn no_statistics() -> FeatureStatistics {
    FeatureStatistics {
        response_time_mean: zero(),
        response_time_std: zero(),
        request_size_mean: zero(),
        request_size_std: zero(),
        response_size_mean: zero(),
        response_size_std: zero(),
        sample_count: 0,
    }
}

/// The mean after one more value, of which there are then `count`.
pub open spec fn next_mean(mean: Binary64, x: Binary64, count: Binary64) -> Binary64 {
    mean.sum(difference(x, mean).quotient(count))
}

/// The standard deviation after one more value: the squared deviations so far, and the
/// product of the distances from the old and from the new mean, over the new count.
pub open spec fn next_deviation(
    mean: Binary64,
    deviation: Binary64,
    x: Binary64,
    before: Binary64,
    count: Binary64,
) -> Binary64 {
    before.product(deviation.product(deviation)).sum(
        difference(x, mean).product(difference(x, next_mean(mean, x, count))),
    ).quotient(count).root()
}

/// The statistics after one more request.
pub open spec fn stats_with(s: FeatureStatistics, f: RequestFeatures) -> FeatureStatistics {
    let before = Binary64::of_nat(s.sample_count as nat);
    let count = Binary64::of_nat(s.sample_count.wrapping_add(1) as nat);
    let time = Binary64::of_nat(f.response_time_ms as nat);
    let request = Binary64::of_nat(f.request_size as nat);
    let response = Binary64::of_nat(f.response_size as nat);
    FeatureStatistics {
        response_time_mean: next_mean(s.response_time_mean, time, count),
        response_time_std: next_deviation(
            s.response_time_mean,
            s.response_time_std,
            time,
            before,
            count,
        ),
        request_size_mean: next_mean(s.request_size_mean, request, count),
        request_size_std: next_deviation(
            s.request_size_mean,
            s.request_size_std,
            request,
            before,
            count,
        ),
        response_size_mean: next_mean(s.response_size_mean, response, count),
        response_size_std: next_deviation(
            s.response_size_mean,
            s.response_size_std,
            response,
            before,
            count,
        ),
        sample_count: s.sample_count.wrapping_add(1),
    }
}

/// How many standard deviations a value lies above the mean; zero, where there is no
/// deviation.
pub open spec fn normalized(x: u64, mean: Binary64, deviation: Binary64) -> Binary64 {
    if deviation.above(zero()) {
        difference(Binary64::of_nat(x as nat), mean).quotient(deviation)
    } else {
        zero()
    }
}

/// How many standard deviations a value lies off the mean; zero, where there is no
/// deviation.
pub open spec fn distance(x: u64, mean: Binary64, deviation: Binary64) -> Binary64 {
    if deviation.above(zero()) {
        difference(Binary64::of_nat(x as nat), mean).size().quotient(deviation)
    } else {
        zero()
    }
}

/// A request counts as an anomaly if it failed on the server, or if something of it lies
/// more than three standard deviations off the mean; with few requests, none does.
pub open spec fn is_outlier(s: FeatureStatistics, f: RequestFeatures) -> bool {
    let three = Binary64 { bits: 0x4008_0000_0000_0000 };
    s.sample_count >= ENOUGH_SAMPLES && (distance(
        f.response_time_ms,
        s.response_time_mean,
        s.response_time_std,
    ).above(three) || distance(f.request_size, s.request_size_mean, s.request_size_std).above(three)
        || distance(f.response_size, s.response_size_mean, s.response_size_std).above(three)
        || f.status_code >= 500)
}

/// A request as numbers.
pub open spec fn feature_vector(s: FeatureStatistics, f: RequestFeatures) -> Seq<Binary64> {
    seq![
        one(),
        normalized(f.response_time_ms, s.response_time_mean, s.response_time_std),
        normalized(f.request_size, s.request_size_mean, s.request_size_std),
        normalized(f.response_size, s.response_size_mean, s.response_size_std),
        flag(f.status_code >= 400),
        flag(f.method@ == "GET"@),
        flag(f.method@ == "POST"@),
        flag(f.method@ == "PUT"@),
        flag(f.method@ == "DELETE"@),
        Binary64::of_nat(text::byte_length(f.path@) as nat).quotient(
            Binary64 { bits: 0x4059_0000_0000_0000 },
        ),
    ]
}

/// The products of the first `n` entries, added up in order.
pub open spec fn dot(w: Seq<Binary64>, x: Seq<Binary64>, n: nat) -> Binary64
    decreases n,
{
    if n == 0 {
        zero()
    } else {
        dot(w, x, (n - 1) as nat).sum(w[n - 1].product(x[n - 1]))
    }
}

/// The length of the shorter one.
pub open spec fn shorter(w: Seq<Binary64>, x: Seq<Binary64>) -> nat {
    if w.len() <= x.len() {
        w.len()
    } else {
        x.len()
    }
}

/// What a linear model gives: the products of the entries, added up.
pub open spec fn linear(w: Seq<Binary64>, x: Seq<Binary64>) -> Binary64 {
    dot(w, x, shorter(w, x))
}

/// What a logistic model gives, where `power` is the power of e to the negative linear
/// value.
pub open spec fn logistic(power: Binary64) -> Binary64 {
    one().quotient(one().sum(power))
}

/// The step of one entry of the gradient at the first `n` requests.
pub open spec fn gradient(t: TrainingModel, powers: Seq<Binary64>, n: nat, i: int) -> Binary64
    decreases n,
{
    if n == 0 {
        zero()
    } else {
        let error = difference(logistic(powers[n - 1]), t.labels[n - 1]);
        gradient(t, powers, (n - 1) as nat, i).sum(
            error.product(t.rows[n - 1][i]).product(t.weights[n - 1]),
        )
    }
}

/// The parameters after going through the requests once: each less a hundredth of the mean
/// of its gradient.
pub open spec fn stepped(t: TrainingModel, powers: Seq<Binary64>) -> Seq<Binary64> {
    Seq::new(
        DIMENSIONS as nat,
        |i: int|
            difference(
                t.parameters[i],
                Binary64 { bits: 0x3F84_7AE1_47AE_147B }.product(
                    gradient(t, powers, t.rows.len(), i),
                ).quotient(Binary64::of_nat(t.rows.len())),
            ),
    )
}

/// A logistic value above a half says one, and the label is less than a tenth away from
/// what is said.
pub open spec fn is_right(power: Binary64, label: Binary64) -> bool {
    let said = flag(logistic(power).above(Binary64 { bits: 0x3FE0_0000_0000_0000 }));
    Binary64 { bits: 0x3FB9_9999_9999_999A }.above(difference(said, label).size())
}

/// How many of the first `n` labels are told right.
pub open spec fn right_count(labels: Seq<Binary64>, powers: Seq<Binary64>, n: nat) -> nat
    decreases n,
{
    if n == 0 {
        0
    } else {
        right_count(labels, powers, (n - 1) as nat) + (if is_right(powers[n - 1], labels[n - 1]) {
            1nat
        } else {
            0nat
        })
    }
}

/// The share of labels that are told right.
pub open spec fn accuracy_of(labels: Seq<Binary64>, powers: Seq<Binary64>) -> Binary64 {
    if labels.len() > 0 {
        Binary64::of_nat(right_count(labels, powers, labels.len())).quotient(
            Binary64::of_nat(labels.len()),
        )
    } else {
        zero()
    }
}

/// A training as a value.
#[verifier::ext_equal]
pub struct TrainingModel {
    /// The feature vectors of the requests.
    pub rows: Seq<Seq<Binary64>>,
    pub labels: Seq<Binary64>,
    pub weights: Seq<Binary64>,
    pub parameters: Seq<Binary64>,
    pub epochs: u32,
}

fn subtract(x: Binary64, y: Binary64) -> (r: Binary64)
    ensures
        r == difference(x, y),
{
    x.minus(y)
}

fn indicator(b: bool) -> (r: Binary64)
    ensures
        r == flag(b),
{
    if b {
        Binary64 { bits: 0x3FF0_0000_0000_0000 }
    } else {
        Binary64 { bits: 0 }
    }
}

/// The mean and the standard deviation after one more value.
fn accumulate(
    mean: Binary64,
    deviation: Binary64,
    x: Binary64,
    before: Binary64,
    count: Binary64,
) -> (r: (Binary64, Binary64))
    ensures
        r.0 == next_mean(mean, x, count),
        r.1 == next_deviation(mean, deviation, x, before, count),
{
    let delta: Binary64 = subtract(x, mean);
    let new_mean: Binary64 = mean.plus(delta.over(count));
    let delta2: Binary64 = subtract(x, new_mean);
    let squares: Binary64 = before.times(deviation.times(deviation)).plus(delta.times(delta2));
    (new_mean, squares.over(count).sqrt())
}

fn normalize(x: u64, mean: Binary64, deviation: Binary64) -> (r: Binary64)
    ensures
        r == normalized(x, mean, deviation),
{
    if deviation.greater_than(Binary64 { bits: 0 }) {
        subtract(Binary64::from_u64(x), mean).over(deviation)
    } else {
        Binary64 { bits: 0 }
    }
}

fn z_score(x: u64, mean: Binary64, deviation: Binary64) -> (r: Binary64)
    ensures
        r == distance(x, mean, deviation),
{
    if deviation.greater_than(Binary64 { bits: 0 }) {
        subtract(Binary64::from_u64(x), mean).abs().over(deviation)
    } else {
        Binary64 { bits: 0 }
    }
}

/// What a linear model gives.
pub fn linear_regression_predict(parameters: &Vec<Binary64>, features: &Vec<Binary64>) -> (r:
    Binary64)
    ensures
        r == linear(parameters@, features@),
{
    let n: usize = if parameters.len() <= features.len() {
        parameters.len()
    } else {
        features.len()
    };
    let mut r: Binary64 = Binary64 { bits: 0 };
    let mut i: usize = 0;
    while i < n
        invariant
            i <= n,
            n == shorter(parameters@, features@),
            r == dot(parameters@, features@, i as nat),
        decreases n - i,
    {
        r = r.plus(parameters[i].times(features[i]));
        i = i + 1;
    }
    r
}

/// What a logistic model gives, where `power` is the power of e to the negative linear
/// value.
pub fn logistic_regression_predict(power: Binary64) -> (r: Binary64)
    ensures
        r == logistic(power),
{
    let one: Binary64 = Binary64 { bits: 0x3FF0_0000_0000_0000 };
    one.over(one.plus(power))
}

impl FeatureStatistics {
    /// Takes a request in.
    pub fn update(&mut self, features: &RequestFeatures)
        ensures
            *final(self) == stats_with(*old(self), *features),
    {
        let before: Binary64 = Binary64::from_u64(self.sample_count as u64);
        self.sample_count = self.sample_count.wrapping_add(1);
        let count: Binary64 = Binary64::from_u64(self.sample_count as u64);
        let (mean, deviation) = accumulate(
            self.response_time_mean,
            self.response_time_std,
            Binary64::from_u64(features.response_time_ms),
            before,
            count,
        );
        self.response_time_mean = mean;
        self.response_time_std = deviation;
        let (mean, deviation) = accumulate(
            self.request_size_mean,
            self.request_size_std,
            Binary64::from_u64(features.request_size),
            before,
            count,
        );
        self.request_size_mean = mean;
        self.request_size_std = deviation;
        let (mean, deviation) = accumulate(
            self.response_size_mean,
            self.response_size_std,
            Binary64::from_u64(features.response_size),
            before,
            count,
        );
        self.response_size_mean = mean;
        self.response_size_std = deviation;
    }

    pub fn is_anomaly_heuristic(&self, features: &RequestFeatures) -> (r: bool)
        ensures
            r == is_outlier(*self, *features),
    {
        if self.sample_count < ENOUGH_SAMPLES {
            return false;
        }
        let three: Binary64 = Binary64 { bits: 0x4008_0000_0000_0000 };
        let rt_zscore: Binary64 = z_score(
            features.response_time_ms,
            self.response_time_mean,
            self.response_time_std,
        );
        let req_zscore: Binary64 = z_score(
            features.request_size,
            self.request_size_mean,
            self.request_size_std,
        );
        let resp_zscore: Binary64 = z_score(
            features.response_size,
            self.response_size_mean,
            self.response_size_std,
        );
        rt_zscore.greater_than(three) || req_zscore.greater_than(three) || resp_zscore.greater_than(
            three,
        ) || features.status_code >= 500
    }

    pub fn extract_feature_vector(&self, features: &RequestFeatures) -> (r: Vec<Binary64>)
        ensures
            r@ == feature_vector(*self, *features),
    {
        let method: &str = features.method.as_str();
        let length: usize = features.path.as_str().len();
        vec![
            Binary64 { bits: 0x3FF0_0000_0000_0000 },
            normalize(
                features.response_time_ms,
                self.response_time_mean,
                self.response_time_std,
            ),
            normalize(features.request_size, self.request_size_mean, self.request_size_std),
            normalize(features.response_size, self.response_size_mean, self.response_size_std),
            indicator(features.status_code >= 400),
            indicator(text::same(method, "GET")),
            indicator(text::same(method, "POST")),
            indicator(text::same(method, "PUT")),
            indicator(text::same(method, "DELETE")),
            Binary64::from_u64(length as u64).over(Binary64 { bits: 0x4059_0000_0000_0000 }),
        ]
    }
}

/// A training of a logistic model. The powers of e that it needs are told from outside.
pub struct Training {
    rows: Vec<Vec<Binary64>>,
    labels: Vec<Binary64>,
    weights: Vec<Binary64>,
    parameters: Vec<Binary64>,
    epochs: u32,
}

impl Training {
    pub closed spec fn view(&self) -> TrainingModel {
        TrainingModel {
            rows: self.rows@.map_values(|row: Vec<Binary64>| row@),
            labels: self.labels@,
            weights: self.weights@,
            parameters: self.parameters@,
            epochs: self.epochs,
        }
    }

    pub closed spec fn well_formed(&self) -> bool {
        &&& self.labels@.len() == self.rows@.len()
        &&& self.weights@.len() == self.rows@.len()
        &&& self.parameters@.len() == DIMENSIONS
        &&& forall|k: int| 0 <= k < self.rows@.len() ==> (#[trigger] self.rows@[k])@.len()
            == DIMENSIONS
    }

    /// Whether the training has gone through the requests often enough.
    pub fn is_done(&self) -> (r: bool)
        ensures
            r == (self@.epochs >= EPOCHS),
    {
        self.epochs >= EPOCHS
    }

    /// How many requests the training goes through.
    pub fn sample_count(&self) -> (r: usize)
        ensures
            r == self@.rows.len(),
    {
        self.rows.len()
    }

    /// The exponents of the powers of e that the next step needs, one for each request: the
    /// negative linear values.
    pub fn exponents(&self) -> (r: Vec<Binary64>)
        requires
            self.well_formed(),
        ensures
            r@ == exponents_of(self@),
    {
        let mut r: Vec<Binary64> = Vec::new();
        let mut k: usize = 0;
        while k < self.rows.len()
            invariant
                k <= self.rows@.len(),
                r@.len() == k,
                forall|l: int|
                    0 <= l < k ==> #[trigger] r@[l] == linear(
                        self.parameters@,
                        self.rows@[l]@,
                    ).opposite(),
            decreases self.rows@.len() - k,
        {
            r.push(linear_regression_predict(&self.parameters, &self.rows[k]).negate());
            k = k + 1;
        }
        assert(r@ =~= exponents_of(self@));
        r
    }

    /// Goes through the requests once, where these are the powers of e to the exponents.
    pub fn step(&mut self, powers: &Vec<Binary64>)
        requires
            old(self).well_formed(),
            powers@.len() == old(self)@.rows.len(),
            old(self)@.epochs < EPOCHS,
        ensures
            final(self).well_formed(),
            final(self)@ == (TrainingModel {
                parameters: stepped(old(self)@, powers@),
                epochs: (old(self)@.epochs + 1) as u32,
                ..old(self)@
            }),
    {
        let gradients: Vec<Binary64> = self.gradients(powers);
        let rate: Binary64 = Binary64 { bits: 0x3F84_7AE1_47AE_147B };
        let count: Binary64 = Binary64::from_u64(self.rows.len() as u64);
        let ghost start = self@;
        let mut parameters: Vec<Binary64> = Vec::new();
        let mut i: usize = 0;
        while i < DIMENSIONS
            invariant
                i <= DIMENSIONS,
                self.well_formed(),
                start == self@,
                rate == (Binary64 { bits: 0x3F84_7AE1_47AE_147B }),
                count == Binary64::of_nat(start.rows.len()),
                gradients@.len() == DIMENSIONS,
                forall|l: int|
                    0 <= l < DIMENSIONS ==> #[trigger] gradients@[l] == gradient(
                        start,
                        powers@,
                        start.rows.len(),
                        l,
                    ),
                parameters@.len() == i,
                forall|l: int|
                    0 <= l < i ==> #[trigger] parameters@[l] == stepped(start, powers@)[l],
            decreases DIMENSIONS - i,
        {
            let change: Binary64 = rate.times(gradients[i]).over(count);
            parameters.push(subtract(self.parameters[i], change));
            i = i + 1;
        }
        assert(parameters@ =~= stepped(start, powers@));
        self.parameters = parameters;
        self.epochs = self.epochs + 1;
    }

    fn gradients(&self, powers: &Vec<Binary64>) -> (r: Vec<Binary64>)
        requires
            self.well_formed(),
            powers@.len() == self@.rows.len(),
        ensures
            r@.len() == DIMENSIONS,
            forall|i: int|
                0 <= i < DIMENSIONS ==> #[trigger] r@[i] == gradient(
                    self@,
                    powers@,
                    self@.rows.len(),
                    i,
                ),
    {
        let mut r: Vec<Binary64> = zeros();
        let mut k: usize = 0;
        while k < self.rows.len()
            invariant
                k <= self.rows@.len(),
                self.well_formed(),
                powers@.len() == self.rows@.len(),
                r@.len() == DIMENSIONS,
                forall|i: int|
                    0 <= i < DIMENSIONS ==> #[trigger] r@[i] == gradient(
                        self@,
                        powers@,
                        k as nat,
                        i,
                    ),
            decreases self.rows@.len() - k,
        {
            let prediction: Binary64 = logistic_regression_predict(powers[k]);
            let error: Binary64 = subtract(prediction, self.labels[k]);
            assert(self@.rows[k as int] == self.rows@[k as int]@);
            let mut next: Vec<Binary64> = Vec::new();
            let mut i: usize = 0;
            while i < DIMENSIONS
                invariant
                    i <= DIMENSIONS,
                    k < self.rows@.len(),
                    self.well_formed(),
                    powers@.len() == self.rows@.len(),
                    self@.rows[k as int] == self.rows@[k as int]@,
                    error == difference(logistic(powers@[k as int]), self@.labels[k as int]),
                    r@.len() == DIMENSIONS,
                    forall|l: int|
                        0 <= l < DIMENSIONS ==> #[trigger] r@[l] == gradient(
                            self@,
                            powers@,
                            k as nat,
                            l,
                        ),
                    next@.len() == i,
                    forall|l: int|
                        0 <= l < i ==> #[trigger] next@[l] == gradient(
                            self@,
                            powers@,
                            (k + 1) as nat,
                            l,
                        ),
                decreases DIMENSIONS - i,
            {
                assert(r@[i as int] == gradient(self@, powers@, k as nat, i as int));
                next.push(r[i].plus(error.times(self.rows[k][i]).times(self.weights[k])));
                i = i + 1;
            }
            r = next;
            k = k + 1;
        }
        r
    }

    /// The share of the requests that the parameters tell right, where these are the powers
    /// of e to the exponents.
    pub fn evaluate_model(&self, powers: &Vec<Binary64>) -> (r: Binary64)
        requires
            self.well_formed(),
            powers@.len() == self@.rows.len(),
        ensures
            r == accuracy_of(self@.labels, powers@),
    {
        let mut correct: u64 = 0;
        let mut k: usize = 0;
        while k < self.labels.len()
            invariant
                k <= self.labels@.len(),
                correct <= k,
                powers@.len() == self.labels@.len(),
                correct == right_count(self.labels@, powers@, k as nat),
            decreases self.labels@.len() - k,
        {
            let prediction: Binary64 = logistic_regression_predict(powers[k]);
            let class: Binary64 = indicator(
                prediction.greater_than(Binary64 { bits: 0x3FE0_0000_0000_0000 }),
            );
            let tenth: Binary64 = Binary64 { bits: 0x3FB9_9999_9999_999A };
            if tenth.greater_than(subtract(class, self.labels[k]).abs()) {
                correct = correct + 1;
            }
            k = k + 1;
        }
        if self.labels.len() > 0 {
            Binary64::from_u64(correct).over(Binary64::from_u64(self.labels.len() as u64))
        } else {
            Binary64 { bits: 0 }
        }
    }
}

/// The negative linear values of the requests.
pub open spec fn exponents_of(t: TrainingModel) -> Seq<Binary64> {
    t.rows.map_values(|row: Seq<Binary64>| linear(t.parameters, row).opposite())
}

/// As many zeros as a feature vector has entries.
fn zeros() -> (r: Vec<Binary64>)
    ensures
        r@.len() == DIMENSIONS,
        forall|i: int| 0 <= i < DIMENSIONS ==> #[trigger] r@[i] == zero(),
{
    let mut r: Vec<Binary64> = Vec::new();
    let mut i: usize = 0;
    while i < DIMENSIONS
        invariant
            i <= DIMENSIONS,
            r@.len() == i,
            forall|l: int| 0 <= l < i ==> #[trigger] r@[l] == zero(),
        decreases DIMENSIONS - i,
    {
        r.push(Binary64 { bits: 0 });
        i = i + 1;
    }
    r
}

/// What a model predicts.
#[derive(Debug, Clone, Copy, PartialEq, Eq, Structural)]
pub enum Prediction {
    Value(Binary64),
    /// The logistic value, for which the power of e to this exponent is needed.
    Logistic { exponent: Binary64 },
}

/// What is predicted of a request.
pub open spec fn predicted(
    models: Seq<LearningModel>,
    s: FeatureStatistics,
    f: RequestFeatures,
) -> Prediction {
    if models.len() == 0 {
        Prediction::Value(zero())
    } else {
        match models[0].model_type {
            ModelType::LogisticRegression => Prediction::Logistic {
                exponent: linear(models[0].parameters@, feature_vector(s, f)).opposite(),
            },
            ModelType::LinearRegression => Prediction::Value(
                linear(models[0].parameters@, feature_vector(s, f)),
            ),
            _ => Prediction::Value(zero()),
        }
    }
}

impl LearningModel {
    /// The two models say the same.
    pub open spec fn same_as(self, other: LearningModel) -> bool {
        &&& self.model_type == other.model_type
        &&& self.parameters@ == other.parameters@
        &&& self.accuracy == other.accuracy
        &&& self.training_samples == other.training_samples
        &&& self.last_updated == other.last_updated
    }
}

impl Clone for LearningModel {
    fn clone(&self) -> (r: Self)
        ensures
            r.same_as(*self),
    {
        let parameters: Vec<Binary64> = self.parameters.clone();
        assert(parameters@ =~= self.parameters@);
        LearningModel {
            model_type: self.model_type,
            parameters,
            accuracy: self.accuracy,
            training_samples: self.training_samples,
            last_updated: self.last_updated,
        }
    }
}

/// The model that an engine starts with.
pub open spec fn is_first_model(m: LearningModel) -> bool {
    &&& m.model_type == ModelType::LogisticRegression
    &&& m.parameters@ == Seq::new(DIMENSIONS as nat, |i: int| zero())
    &&& m.accuracy.bits == 0x3FE0_0000_0000_0000
    &&& m.training_samples == 0
}

/// What an engine has learned.
#[verifier::ext_equal]
pub struct LearnerModel {
    pub models: Seq<LearningModel>,
    /// The requests to train with, the latest at the end.
    pub buffer: Seq<TrainingData>,
    pub stats: FeatureStatistics,
}

/// A request with its label, all of the same weight.
pub open spec fn labelled(s: FeatureStatistics, f: RequestFeatures) -> TrainingData {
    TrainingData { features: f, label: flag(is_outlier(s, f)), weight: one() }
}

/// The latest requests, as many as are kept.
pub open spec fn kept(buffer: Seq<TrainingData>) -> Seq<TrainingData> {
    if buffer.len() > KEPT_REQUESTS {
        buffer.skip(1)
    } else {
        buffer
    }
}

/// The engine after one more request.
pub open spec fn learned(m: LearnerModel, f: RequestFeatures) -> LearnerModel {
    let stats = stats_with(m.stats, f);
    LearnerModel { stats, buffer: kept(m.buffer.push(labelled(stats, f))), ..m }
}

/// It is time to train anew.
pub open spec fn is_training_due(m: LearnerModel) -> bool {
    m.buffer.len() > 0 && m.buffer.len() % TRAINING_INTERVAL as nat == 0
}

/// There is enough to train with, and a model that can be trained.
pub open spec fn can_train(m: LearnerModel) -> bool {
    &&& m.buffer.len() >= ENOUGH_SAMPLES
    &&& m.models.len() > 0
    &&& m.models[0].model_type == ModelType::LogisticRegression
}

/// The start of a training with the requests of the buffer.
pub open spec fn new_training(m: LearnerModel) -> TrainingModel {
    TrainingModel {
        rows: m.buffer.map_values(|d: TrainingData| feature_vector(m.stats, d.features)),
        labels: m.buffer.map_values(|d: TrainingData| d.label),
        weights: m.buffer.map_values(|d: TrainingData| d.weight),
        parameters: Seq::new(DIMENSIONS as nat, |i: int| zero()),
        epochs: 0,
    }
}

pub struct LearningEngine {
    config: Arc<ProxyConfig>,
    models: Vec<LearningModel>,
    training_buffer: VecDeque<TrainingData>,
    feature_stats: FeatureStatistics,
}

impl LearningEngine {
    pub closed spec fn config(&self) -> ProxyConfig {
        *self.config
    }

    pub closed spec fn view(&self) -> LearnerModel {
        LearnerModel {
            models: self.models@,
            buffer: self.training_buffer@,
            stats: self.feature_stats,
        }
    }

    pub fn new(config: Arc<ProxyConfig>) -> (r: Self)
        ensures
            r.config() == *config,
            r@.models.len() == 1,
            is_first_model(r@.models[0]),
            r@.buffer == Seq::<TrainingData>::empty(),
            r@.stats == no_statistics(),
    {
        let parameters: Vec<Binary64> = zeros();
        assert(parameters@ =~= Seq::new(DIMENSIONS as nat, |i: int| zero()));
        let zero: Binary64 = Binary64 { bits: 0 };
        LearningEngine {
            config,
            models: vec![
                LearningModel {
                    model_type: ModelType::LogisticRegression,
                    parameters,
                    accuracy: Binary64 { bits: 0x3FE0_0000_0000_0000 },
                    training_samples: 0,
                    last_updated: clock::utc_now(),
                },
            ],
            training_buffer: VecDeque::with_capacity(KEPT_REQUESTS),
            feature_stats: FeatureStatistics {
                response_time_mean: zero,
                response_time_std: zero,
                request_size_mean: zero,
                request_size_std: zero,
                response_size_mean: zero,
                response_size_std: zero,
                sample_count: 0,
            },
        }
    }

    /// Learns from a request, if learning is on, and tells whether it is time to train.
    pub fn update_model(&mut self, features: &RequestFeatures) -> (r: bool)
        requires
            old(self)@.buffer.len() <= KEPT_REQUESTS,
        ensures
            final(self).config() == old(self).config(),
            final(self)@.buffer.len() <= KEPT_REQUESTS,
            old(self).config().ai.learning_enabled ==> final(self)@ == learned(
                old(self)@,
                *features,
            ) && r == is_training_due(final(self)@),
            !old(self).config().ai.learning_enabled ==> final(self)@ == old(self)@ && !r,
    {
        if !self.config.ai.learning_enabled {
            return false;
        }
        self.feature_stats.update(features);
        let is_anomaly: bool = self.feature_stats.is_anomaly_heuristic(features);
        self.training_buffer.push_back(
            TrainingData {
                features: features.clone(),
                label: indicator(is_anomaly),
                weight: Binary64 { bits: 0x3FF0_0000_0000_0000 },
            },
        );
        if self.training_buffer.len() > KEPT_REQUESTS {
            let ghost full = self.training_buffer@;
            self.training_buffer.pop_front();
            assert(self.training_buffer@ =~= full.skip(1));
        }
        let size: usize = self.training_buffer.len();
        size % TRAINING_INTERVAL == 0 && size > 0
    }

    pub fn predict_anomaly(&self, features: &RequestFeatures) -> (r: Prediction)
        ensures
            r == predicted(self@.models, self@.stats, *features),
    {
        if self.models.len() == 0 {
            return Prediction::Value(Binary64 { bits: 0 });
        }
        let vector: Vec<Binary64> = self.feature_stats.extract_feature_vector(features);
        match self.models[0].model_type {
            ModelType::LogisticRegression => Prediction::Logistic {
                exponent: linear_regression_predict(&self.models[0].parameters, &vector).negate(),
            },
            ModelType::LinearRegression => Prediction::Value(
                linear_regression_predict(&self.models[0].parameters, &vector),
            ),
            _ => Prediction::Value(Binary64 { bits: 0 }),
        }
    }

    pub fn extract_feature_vector(&self, features: &RequestFeatures) -> (r: Vec<Binary64>)
        ensures
            r@ == feature_vector(self@.stats, *features),
    {
        self.feature_stats.extract_feature_vector(features)
    }

    /// Starts to train a model anew with the requests of the buffer, if there are enough of
    /// them and the model can be trained.
    pub fn retrain_models(&self) -> (r: Option<Training>)
        ensures
            r is Some == can_train(self@),
            r matches Some(t) ==> t.well_formed() && t@ == new_training(self@),
    {
        if self.training_buffer.len() < ENOUGH_SAMPLES || self.models.len() == 0 {
            return None;
        }
        if self.models[0].model_type != ModelType::LogisticRegression {
            return None;
        }
        let mut rows: Vec<Vec<Binary64>> = Vec::new();
        let mut labels: Vec<Binary64> = Vec::new();
        let mut weights: Vec<Binary64> = Vec::new();
        let mut k: usize = 0;
        while k < self.training_buffer.len()
            invariant
                k <= self.training_buffer@.len(),
                rows@.len() == k,
                labels@.len() == k,
                weights@.len() == k,
                forall|l: int|
                    0 <= l < k ==> (#[trigger] rows@[l])@ == feature_vector(
                        self.feature_stats,
                        self.training_buffer@[l].features,
                    ),
                forall|l: int|
                    0 <= l < k ==> #[trigger] labels@[l] == self.training_buffer@[l].label,
                forall|l: int|
                    0 <= l < k ==> #[trigger] weights@[l] == self.training_buffer@[l].weight,
            decreases self.training_buffer@.len() - k,
        {
            let data: &TrainingData = &self.training_buffer[k];
            rows.push(self.feature_stats.extract_feature_vector(&data.features));
            labels.push(data.label);
            weights.push(data.weight);
            k = k + 1;
        }
        let t = Training { rows, labels, weights, parameters: zeros(), epochs: 0 };
        assert(t@ =~= new_training(self@)) by {
            assert(t@.rows =~= new_training(self@).rows);
        }
        Some(t)
    }

    /// Takes over the parameters of a training, if they tell more of the requests right
    /// than the model did, where these are the powers of e to the exponents of the training.
    pub fn adopt(&mut self, training: Training, powers: &Vec<Binary64>) -> (r: bool)
        requires
            old(self)@.models.len() > 0,
            training.well_formed(),
            powers@.len() == training@.rows.len(),
        ensures
            final(self).config() == old(self).config(),
            final(self)@.buffer == old(self)@.buffer,
            final(self)@.stats == old(self)@.stats,
            r == accuracy_of(training@.labels, powers@).above(old(self)@.models[0].accuracy),
            !r ==> final(self)@.models == old(self)@.models,
            r ==> {
                &&& final(self)@.models.len() == old(self)@.models.len()
                &&& forall|i: int|
                    1 <= i < old(self)@.models.len() ==> #[trigger] final(self)@.models[i] == old(
                        self,
                    )@.models[i]
                &&& final(self)@.models[0].model_type == old(self)@.models[0].model_type
                &&& final(self)@.models[0].parameters@ == training@.parameters
                &&& final(self)@.models[0].accuracy == accuracy_of(training@.labels, powers@)
                &&& final(self)@.models[0].training_samples == training@.rows.len()
            },
    {
        let accuracy: Binary64 = training.evaluate_model(powers);
        if accuracy.greater_than(self.models[0].accuracy) {
            let samples: usize = training.rows.len();
            self.models[0].parameters = training.parameters;
            self.models[0].accuracy = accuracy;
            self.models[0].training_samples = samples;
            self.models[0].last_updated = clock::utc_now();
            true
        } else {
            false
        }
    }

    pub fn get_model_info(&self) -> (r: Vec<LearningModel>)
        ensures
            r@.len() == self@.models.len(),
            forall|i: int|
                0 <= i < r@.len() ==> (#[trigger] r@[i]).same_as(self@.models[i]),
    {
        let mut r: Vec<LearningModel> = Vec::new();
        let mut i: usize = 0;
        while i < self.models.len()
            invariant
                i <= self.models@.len(),
                r@.len() == i,
                forall|l: int| 0 <= l < i ==> (#[trigger] r@[l]).same_as(self.models@[l]),
            decreases self.models@.len() - i,
        {
            r.push(self.models[i].clone());
            i = i + 1;
        }
        r
    }

    pub fn get_training_stats(&self) -> (r: (usize, FeatureStatistics))
        ensures
            r.0 == self@.buffer.len(),
            r.1 == self@.stats,
    {
        (self.training_buffer.len(), self.feature_stats)
    }
}

proof fn lemma_right_count(labels: Seq<Binary64>, powers: Seq<Binary64>, n: nat)
    ensures
        right_count(labels, powers, n) <= n,
    decreases n,
{
    if n > 0 {
        lemma_right_count(labels, powers, (n - 1) as nat);
    }
}

/// No accuracy is above one, so a model that tells all of the requests right is never
/// replaced.
pub proof fn accuracies_are_at_most_one(labels: Seq<Binary64>, powers: Seq<Binary64>)
    requires
        labels.len() <= 0x20_0000_0000_0000,
    ensures
        !accuracy_of(labels, powers).above(one()),
        !accuracy_of(labels, powers).nan(),
{
    let all = labels.len();
    let right = right_count(labels, powers, all);
    lemma_right_count(labels, powers, all);
    if all > 0 {
        let unit = vstd::arithmetic::power2::pow2(binary64::UNIT_PLACES as nat);
        vstd::arithmetic::power2::lemma_pow2_pos(binary64::UNIT_PLACES as nat);
        binary64::whole_numbers_are_exact(all);
        binary64::whole_numbers_are_exact(right);
        binary64::order_is_that_of_values(Binary64::of_nat(right), Binary64::of_nat(all));
        assert(right * unit <= all * unit && 0 < all * unit) by (nonlinear_arith)
            requires
                right <= all,
                0 < all,
                unit > 0,
        ;
        binary64::shares_are_at_most_one(Binary64::of_nat(right), Binary64::of_nat(all));
    }
}

/// While few requests are known, none counts as an anomaly.
pub proof fn few_requests_are_all_ordinary(s: FeatureStatistics, f: RequestFeatures)
    requires
        s.sample_count < ENOUGH_SAMPLES,
    ensures
        labelled(s, f).label == zero(),
{
}

/// Once enough requests are known, a request that failed on the server counts as an anomaly.
pub proof fn server_errors_are_anomalies(s: FeatureStatistics, f: RequestFeatures)
    requires
        s.sample_count >= ENOUGH_SAMPLES,
        f.status_code >= 500,
    ensures
        labelled(s, f).label == one(),
{
}

/// No more requests are kept than there is room for, and the latest one is among them.
pub proof fn kept_requests_are_limited(m: LearnerModel, f: RequestFeatures)
    requires
        m.buffer.len() <= KEPT_REQUESTS,
    ensures
        learned(m, f).buffer.len() <= KEPT_REQUESTS,
        learned(m, f).buffer.last() == labelled(stats_with(m.stats, f), f),
{
}

/// The statistics of a number of requests that are all alike.
pub open spec fn stats_of_alike(f: RequestFeatures, requests: nat) -> FeatureStatistics
    decreases requests,
{
    if requests == 0 {
        no_statistics()
    } else {
        stats_with(stats_of_alike(f, (requests - 1) as nat), f)
    }
}

/// One more value like the ones before leaves their mean, and no deviation.
proof fn lemma_like_value(mean: Binary64, x: u64, before: nat)
    requires
        mean == (if before == 0 {
            zero()
        } else {
            Binary64::of_nat(x as nat)
        }),
        before < u64::MAX,
    ensures
        ({
            let value = Binary64::of_nat(x as nat);
            let count = Binary64::of_nat(before + 1);
            &&& next_mean(mean, value, count) == value
            &&& next_deviation(mean, zero(), value, Binary64::of_nat(before), count) == zero()
        }),
{
    let value = Binary64::of_nat(x as nat);
    let count = Binary64::of_nat(before + 1);
    binary64::whole_numbers_are_finite(x as nat);
    binary64::whole_numbers_are_finite(before);
    binary64::whole_numbers_are_finite(before + 1);
    binary64::neutral_numbers(value);
    binary64::neutral_numbers(Binary64::of_nat(before));
    binary64::neutral_numbers(zero());
    binary64::zero_stays_zero(count);
    binary64::adding_zero_changes_nothing(value);
    binary64::adding_zero_changes_nothing(zero());
    binary64::one_is_one();
}

/// The statistics of requests like this one.
pub open spec fn alike(f: RequestFeatures, requests: nat) -> FeatureStatistics {
    FeatureStatistics {
        response_time_mean: Binary64::of_nat(f.response_time_ms as nat),
        response_time_std: zero(),
        request_size_mean: Binary64::of_nat(f.request_size as nat),
        request_size_std: zero(),
        response_size_mean: Binary64::of_nat(f.response_size as nat),
        response_size_std: zero(),
        sample_count: requests as usize,
    }
}

proof fn lemma_one_more_alike(s: FeatureStatistics, f: RequestFeatures, before: nat)
    requires
        before < usize::MAX,
        s == (if before == 0 {
            no_statistics()
        } else {
            alike(f, before)
        }),
    ensures
        stats_with(s, f) == alike(f, before + 1),
{
    lemma_like_value(s.response_time_mean, f.response_time_ms, before);
    lemma_like_value(s.request_size_mean, f.request_size, before);
    lemma_like_value(s.response_size_mean, f.response_size, before);
    assert(s.sample_count.wrapping_add(1) == before + 1);
}

proof fn lemma_no_deviation(f: RequestFeatures, requests: nat)
    requires
        requests <= usize::MAX,
    ensures
        is_outlier(alike(f, requests), f) <==> requests >= ENOUGH_SAMPLES && f.status_code >= 500,
{
    let three = Binary64 { bits: 0x4008_0000_0000_0000 };
    assert(!zero().above(zero()));
    assert(!zero().above(three));
}

/// Requests that are all alike have their own values as means, and no deviation; so none of
/// them stands out, unless it failed on the server.
pub proof fn like_requests_do_not_deviate(f: RequestFeatures, requests: nat)
    requires
        1 <= requests <= usize::MAX,
    ensures
        stats_of_alike(f, requests) == alike(f, requests),
        is_outlier(stats_of_alike(f, requests), f) <==> requests >= ENOUGH_SAMPLES
            && f.status_code >= 500,
    decreases requests,
{
    let before = (requests - 1) as nat;
    if before > 0 {
        like_requests_do_not_deviate(f, before);
    }
    lemma_one_more_alike(stats_of_alike(f, before), f, before);
    lemma_no_deviation(f, requests);
}

/// A logistic model predicts of a request by the exponent that a training with the same
/// parameters has for a request with the same features, so the two agree on the logistic value.
/// Of two requests, the one with the greater product of parameters and features has the lesser
/// exponent; the exponent is negative where the product is positive.
pub proof fn predictions_agree_with_training(
    models: Seq<LearningModel>,
    s: FeatureStatistics,
    f: RequestFeatures,
    g: RequestFeatures,
    t: TrainingModel,
    k: int,
)
    requires
        models.len() > 0,
        models[0].model_type == ModelType::LogisticRegression,
    ensures
        predicted(models, s, f) is Logistic,
        t.parameters == models[0].parameters@ && 0 <= k < t.rows.len() && t.rows[k]
            == feature_vector(s, f) ==> exponents_of(t)[k] == predicted(models, s, f)->exponent,
        linear(models[0].parameters@, feature_vector(s, f)).above(
            linear(models[0].parameters@, feature_vector(s, g)),
        ) <==> predicted(models, s, g)->exponent.above(predicted(models, s, f)->exponent),
        linear(models[0].parameters@, feature_vector(s, f)).rank() > 0 <==> predicted(
            models,
            s,
            f,
        )->exponent.rank() < 0,
{
    let x = linear(models[0].parameters@, feature_vector(s, f));
    let y = linear(models[0].parameters@, feature_vector(s, g));
    precision::opposites_turn_the_order(x, y);
}

/// In a training too, the greater product has the lesser exponent.
pub proof fn exponents_turn_the_order(t: TrainingModel, k: int, l: int)
    requires
        0 <= k < t.rows.len(),
        0 <= l < t.rows.len(),
    ensures
        exponents_of(t).len() == t.rows.len(),
        linear(t.parameters, t.rows[k]).above(linear(t.parameters, t.rows[l]))
            <==> exponents_of(t)[l].above(exponents_of(t)[k]),
        linear(t.parameters, t.rows[k]).rank() > 0 <==> exponents_of(t)[k].rank() < 0,
{
    let x = linear(t.parameters, t.rows[k]);
    let y = linear(t.parameters, t.rows[l]);
    precision::opposites_turn_the_order(x, y);
}

/// Other models: without one nothing is predicted, a linear one gives the product itself, and
/// the others nothing yet. Only the first model is asked.
pub proof fn other_models_predict_plainly(
    models: Seq<LearningModel>,
    more: Seq<LearningModel>,
    s: FeatureStatistics,
    f: RequestFeatures,
)
    ensures
        models.len() == 0 ==> predicted(models, s, f) == Prediction::Value(Binary64 { bits: 0 }),
        models.len() > 0 ==> predicted(models + more, s, f) == predicted(models, s, f),
        models.len() > 0 && models[0].model_type == ModelType::LinearRegression ==> predicted(
            models,
            s,
            f,
        ) == Prediction::Value(linear(models[0].parameters@, feature_vector(s, f))),
        models.len() > 0 && (models[0].model_type == ModelType::DecisionTree
            || models[0].model_type == ModelType::NeuralNetwork) ==> predicted(models, s, f)
            == Prediction::Value(Binary64 { bits: 0 }),
{
}

proof fn lemma_dot_prefix(
    w: Seq<Binary64>,
    x: Seq<Binary64>,
    v: Seq<Binary64>,
    y: Seq<Binary64>,
    n: nat,
)
    requires
        n <= w.len() && n <= x.len() && n <= v.len() && n <= y.len(),
        w.take(n as int) == v.take(n as int),
        x.take(n as int) == y.take(n as int),
    ensures
        dot(w, x, n) == dot(v, y, n),
    decreases n,
{
    if n > 0 {
        let m = n - 1;
        assert(w.take(m) =~= w.take(n as int).take(m));
        assert(v.take(m) =~= v.take(n as int).take(m));
        assert(x.take(m) =~= x.take(n as int).take(m));
        assert(y.take(m) =~= y.take(n as int).take(m));
        lemma_dot_prefix(w, x, v, y, m as nat);
        assert(w[m] == w.take(n as int)[m] && v[m] == v.take(n as int)[m]);
        assert(x[m] == x.take(n as int)[m] && y[m] == y.take(n as int)[m]);
    }
}

/// Every parameter counts, with the feature at its place: one pair more adds its product. A
/// parameter or a feature without the other does not count, and nothing comes to zero.
pub proof fn every_pair_adds_its_product(
    w: Seq<Binary64>,
    x: Seq<Binary64>,
    a: Binary64,
    b: Binary64,
)
    requires
        w.len() == x.len(),
    ensures
        linear(w.push(a), x.push(b)) == linear(w, x).sum(a.product(b)),
        linear(w.push(a), x) == linear(w, x),
        linear(w, x.push(b)) == linear(w, x),
        linear(Seq::empty(), x) == (Binary64 { bits: 0 }),
{
    let n = w.len();
    assert(w.push(a).take(n as int) =~= w.take(n as int));
    assert(x.push(b).take(n as int) =~= x.take(n as int));
    lemma_dot_prefix(w.push(a), x.push(b), w, x, n);
    lemma_dot_prefix(w.push(a), x, w, x, n);
    lemma_dot_prefix(w, x.push(b), w, x, n);
}

/// A half, and what the logistic value of one comes to.
proof fn lemma_half()
    ensures
        logistic(one()) == (Binary64 { bits: 0x3FE0_0000_0000_0000 }),
{
    let unit = vstd::arithmetic::power2::pow2(binary64::UNIT_PLACES as nat);
    let half = vstd::arithmetic::power2::pow2(1073);
    vstd::arithmetic::power2::lemma_pow2_pos(binary64::UNIT_PLACES as nat);
    vstd::arithmetic::power2::lemma_pow2_unfold(1074);
    vstd::arithmetic::power2::lemma2_to64();
    vstd::arithmetic::power2::lemma2_to64_rest();
    vstd::arithmetic::power2::lemma_pow2_adds(52, 1021);
    binary64::lemma_units_of_fields(1022, 0);
    let m = 0x3FE0_0000_0000_0000nat;
    assert(binary64::units(m) == half);
    binary64::one_is_one();
    binary64::lemma_one();
    binary64::whole_numbers_add_and_multiply(1, 1);
    binary64::whole_numbers_are_exact(2);
    let two = Binary64::of_nat(2);
    assert(one().sum(one()) == two);
    let d = 2 * unit;
    assert(binary64::units(two.magnitude()) == d);
    assert(unit * unit == half * d) by (nonlinear_arith)
        requires
            unit == 2 * half,
            d == 2 * unit,
    ;
    binary64::lemma_round_is_exact(m, d);
}

/// A logistic value lies between zero and one and falls as the power grows: it is one where the
/// power is zero, a half where it is one, and zero where it is infinite.
pub proof fn logistic_values_fall(p: Binary64, q: Binary64)
    requires
        !p.nan() && !p.negative(),
        !q.nan() && !q.negative(),
        !p.above(q),
    ensures
        !logistic(q).above(logistic(p)),
        !logistic(p).nan() && !logistic(p).negative(),
        !logistic(p).above(one()),
        logistic(zero()) == one(),
        logistic(one()) == (Binary64 { bits: 0x3FE0_0000_0000_0000 }),
        logistic(Binary64 { bits: 0x7FF0_0000_0000_0000 }) == zero(),
{
    binary64::lemma_one();
    binary64::one_is_one();
    lemma_half();
    binary64::adding_zero_changes_nothing(one());
    binary64::neutral_numbers(one());
    let (a, b) = (one().sum(p), one().sum(q));
    binary64::no_sign_stays_no_sign(one(), p);
    binary64::no_sign_stays_no_sign(one(), q);
    if p.finite() {
        binary64::adding_does_not_lower(one(), p);
        precision::sums_commute(one(), p);
        precision::sums_commute(one(), q);
        if q.finite() {
            precision::sums_keep_order(p, q, one());
            binary64::adding_does_not_lower(one(), q);
        }
    }
    if a.finite() {
        binary64::shares_are_at_most_one(one(), a);
        if b.finite() {
            precision::quotients_turn_the_order(one(), a, b);
        }
    }
}

/// A request is told right exactly if its logistic value is above a half and it is an anomaly,
/// or is not above a half and it is none.
pub proof fn right_is_on_the_right_side(power: Binary64, anomaly: bool)
    ensures
        is_right(power, if anomaly {
            Binary64::one()
        } else {
            Binary64 { bits: 0 }
        }) <==> (anomaly <==> logistic(power).above((Binary64 { bits: 0x3FE0_0000_0000_0000 }))),
{
    binary64::lemma_one();
    binary64::neutral_numbers(one());
    binary64::neutral_numbers(zero());
    let tenth = Binary64 { bits: 0x3FB9_9999_9999_999A };
    assert(tenth.above(zero()));
    assert(!tenth.above(one()));
    assert(difference(one(), one()) == zero());
    assert(difference(zero(), zero()) == zero());
    assert(difference(one(), zero()) == one());
    precision::sums_commute(zero(), one().opposite());
    let minus = one().opposite();
    assert(difference(zero(), one()).size() == one()) by {
        let m = one().magnitude();
        binary64::lemma_round_is_exact(m, 1);
        binary64::lemma_units_at_least(m);
        assert(binary64::units(m) * 1 == binary64::units(m));
        assert(binary64::units(0) == 0);
    }
}

/// Requests are counted one by one: those of a first part and those of the rest together are
/// all, none is left out where all are right, and none is counted where none is.
pub proof fn right_requests_are_counted(
    labels: Seq<Binary64>,
    powers: Seq<Binary64>,
    m: nat,
    n: nat,
)
    requires
        m <= n <= labels.len(),
        n <= powers.len(),
    ensures
        right_count(labels, powers, n) == right_count(labels, powers, m) + right_count(
            labels.skip(m as int),
            powers.skip(m as int),
            (n - m) as nat,
        ),
        (forall|k: int| 0 <= k < n ==> is_right(#[trigger] powers[k], labels[k])) ==> right_count(
            labels,
            powers,
            n,
        ) == n,
        (forall|k: int| 0 <= k < n ==> !is_right(#[trigger] powers[k], labels[k])) ==> right_count(
            labels,
            powers,
            n,
        ) == 0,
    decreases n,
{
    if n > m {
        right_requests_are_counted(labels, powers, m, (n - 1) as nat);
        let k = n - 1;
        assert(labels.skip(m as int)[k - m] == labels[k]);
        assert(powers.skip(m as int)[k - m] == powers[k]);
    } else if n > 0 {
        right_requests_are_counted(labels, powers, (n - 1) as nat, (n - 1) as nat);
    }
}

/// The more requests are told right of the same number, the greater the accuracy: it is one
/// where all are, and zero where none is, or there are none.
pub proof fn accuracies_follow_the_count(
    labels: Seq<Binary64>,
    powers: Seq<Binary64>,
    others: Seq<Binary64>,
    more: Seq<Binary64>,
)
    requires
        labels.len() == others.len(),
        labels.len() <= 0x20_0000_0000_0000,
        right_count(labels, powers, labels.len()) <= right_count(others, more, others.len()),
    ensures
        !accuracy_of(labels, powers).above(accuracy_of(others, more)),
        labels.len() > 0 && right_count(labels, powers, labels.len()) == labels.len()
            ==> accuracy_of(labels, powers) == one(),
        right_count(labels, powers, labels.len()) == 0 ==> accuracy_of(labels, powers) == zero(),
{
    let n = labels.len();
    lemma_right_count(labels, powers, n);
    lemma_right_count(others, more, n);
    if n > 0 {
        precision::shares_follow_counts(
            right_count(labels, powers, n),
            right_count(others, more, n),
            n,
        );
    }
}

/// A mean moves towards each new value, or stays: a value that is no less does not lower it,
/// and one that is no more does not raise it.
pub proof fn means_move_towards_values(mean: Binary64, x: Binary64, count: Binary64)
    requires
        mean.finite(),
        x.finite(),
        count.finite() && !count.negative() && !count.zero(),
    ensures
        !mean.above(x) ==> !mean.above(next_mean(mean, x, count)),
        !x.above(mean) ==> !next_mean(mean, x, count).above(mean),
        !next_mean(mean, x, count).nan(),
{
    let d = difference(x, mean);
    precision::differences_show_the_order(x, mean);
    precision::quotients_keep_signs(d, count);
    precision::sums_go_the_way_of_what_is_added(mean, d.quotient(count));
}

/// The three kinds of values are treated alike: where two kinds have the same mean and deviation
/// and the same value comes, they have the same mean and deviation again, and the value lies as
/// far off by the one as by the other.
pub proof fn values_of_all_kinds_are_treated_alike(s: FeatureStatistics, f: RequestFeatures)
    ensures
        s.request_size_mean == s.response_time_mean && s.request_size_std == s.response_time_std
            && f.request_size == f.response_time_ms ==> {
            let after = stats_with(s, f);
            &&& after.request_size_mean == after.response_time_mean
            &&& after.request_size_std == after.response_time_std
            &&& feature_vector(s, f)[2] == feature_vector(s, f)[1]
        },
        s.response_size_mean == s.response_time_mean && s.response_size_std == s.response_time_std
            && f.response_size == f.response_time_ms ==> {
            let after = stats_with(s, f);
            &&& after.response_size_mean == after.response_time_mean
            &&& after.response_size_std == after.response_time_std
            &&& feature_vector(s, f)[3] == feature_vector(s, f)[1]
        },
{
}

/// Each value goes into the statistics of its own kind, and into no other; the requests are
/// counted.
pub proof fn statistics_are_kept_apart(
    s: FeatureStatistics,
    f: RequestFeatures,
    g: RequestFeatures,
)
    requires
        s.sample_count < usize::MAX,
    ensures
        stats_with(s, f).sample_count == s.sample_count + 1,
        f.response_time_ms == g.response_time_ms ==> {
            &&& stats_with(s, f).response_time_mean == stats_with(s, g).response_time_mean
            &&& stats_with(s, f).response_time_std == stats_with(s, g).response_time_std
        },
        f.request_size == g.request_size ==> {
            &&& stats_with(s, f).request_size_mean == stats_with(s, g).request_size_mean
            &&& stats_with(s, f).request_size_std == stats_with(s, g).request_size_std
        },
        f.response_size == g.response_size ==> {
            &&& stats_with(s, f).response_size_mean == stats_with(s, g).response_size_mean
            &&& stats_with(s, f).response_size_std == stats_with(s, g).response_size_std
        },
        s.response_time_mean.finite() && !s.response_time_mean.above(
            Binary64::of_nat(f.response_time_ms as nat),
        ) ==> !s.response_time_mean.above(stats_with(s, f).response_time_mean),
        s.request_size_mean.finite() && !s.request_size_mean.above(
            Binary64::of_nat(f.request_size as nat),
        ) ==> !s.request_size_mean.above(stats_with(s, f).request_size_mean),
        s.response_size_mean.finite() && !s.response_size_mean.above(
            Binary64::of_nat(f.response_size as nat),
        ) ==> !s.response_size_mean.above(stats_with(s, f).response_size_mean),
{
    let count = Binary64::of_nat((s.sample_count + 1) as nat);
    binary64::whole_numbers_are_finite((s.sample_count + 1) as nat);
    binary64::whole_numbers_are_finite(f.response_time_ms as nat);
    binary64::whole_numbers_are_finite(f.request_size as nat);
    binary64::whole_numbers_are_finite(f.response_size as nat);
    if s.response_time_mean.finite() {
        means_move_towards_values(
            s.response_time_mean,
            Binary64::of_nat(f.response_time_ms as nat),
            count,
        );
    }
    if s.request_size_mean.finite() {
        means_move_towards_values(
            s.request_size_mean,
            Binary64::of_nat(f.request_size as nat),
            count,
        );
    }
    if s.response_size_mean.finite() {
        means_move_towards_values(
            s.response_size_mean,
            Binary64::of_nat(f.response_size as nat),
            count,
        );
    }
}

/// A value above the mean is so many deviations above it, one below so many below; where there
/// is no deviation, it is none. How far off it lies is the size of that.
pub proof fn values_are_measured_from_the_mean(x: u64, mean: Binary64, deviation: Binary64)
    requires
        mean.finite(),
        deviation.finite() && !deviation.negative(),
    ensures
        deviation.zero() ==> normalized(x, mean, deviation) == (Binary64 { bits: 0 }),
        !mean.above(Binary64::of_nat(x as nat)) ==> normalized(x, mean, deviation).rank() >= 0,
        !Binary64::of_nat(x as nat).above(mean) ==> normalized(x, mean, deviation).rank() <= 0,
        !normalized(x, mean, deviation).nan(),
        distance(x, mean, deviation) == normalized(x, mean, deviation).size(),
{
    binary64::whole_numbers_are_finite(x as nat);
    let d = difference(Binary64::of_nat(x as nat), mean);
    precision::differences_show_the_order(Binary64::of_nat(x as nat), mean);
    if deviation.above(zero()) {
        precision::quotients_keep_signs(d, deviation);
        precision::sizes_divide(d, deviation);
    }
}

/// A request stands out, once enough are known, by any of its three values alone, if that lies
/// more than three deviations off its own mean, on either side, or by a failure of the server;
/// and by nothing else.
pub proof fn requests_stand_out_by_any_value(s: FeatureStatistics, f: RequestFeatures)
    requires
        s.response_time_mean.finite() && s.response_time_std.finite()
            && !s.response_time_std.negative(),
        s.request_size_mean.finite() && s.request_size_std.finite()
            && !s.request_size_std.negative(),
        s.response_size_mean.finite() && s.response_size_std.finite()
            && !s.response_size_std.negative(),
    ensures
        ({
            let three = Binary64 { bits: 0x4008_0000_0000_0000 };
            let time = normalized(
                f.response_time_ms,
                s.response_time_mean,
                s.response_time_std,
            ).size().above(three);
            let request = normalized(
                f.request_size,
                s.request_size_mean,
                s.request_size_std,
            ).size().above(three);
            let response = normalized(
                f.response_size,
                s.response_size_mean,
                s.response_size_std,
            ).size().above(three);
            &&& s.sample_count < 100 ==> !is_outlier(s, f)
            &&& s.sample_count >= 100 && time ==> is_outlier(s, f)
            &&& s.sample_count >= 100 && request ==> is_outlier(s, f)
            &&& s.sample_count >= 100 && response ==> is_outlier(s, f)
            &&& s.sample_count >= 100 && f.status_code >= 500 ==> is_outlier(s, f)
            &&& !time && !request && !response && f.status_code < 500 ==> !is_outlier(s, f)
        }),
{
    values_are_measured_from_the_mean(
        f.response_time_ms,
        s.response_time_mean,
        s.response_time_std,
    );
    values_are_measured_from_the_mean(f.request_size, s.request_size_mean, s.request_size_std);
    values_are_measured_from_the_mean(f.response_size, s.response_size_mean, s.response_size_std);
}

/// A request as numbers: a constant, its three values measured from their means, whether it
/// failed, which of four methods it has, and the length of its path in hundreds of bytes.
pub proof fn requests_are_told_in_ten_numbers(s: FeatureStatistics, f: RequestFeatures)
    ensures
        ({
            let v = feature_vector(s, f);
            let (no, yes) = (Binary64 { bits: 0 }, Binary64 { bits: 0x3FF0_0000_0000_0000 });
            &&& v.len() == 10
            &&& v[0] == yes
            &&& v[1] == normalized(f.response_time_ms, s.response_time_mean, s.response_time_std)
            &&& v[2] == normalized(f.request_size, s.request_size_mean, s.request_size_std)
            &&& v[3] == normalized(f.response_size, s.response_size_mean, s.response_size_std)
            &&& v[4] == yes <==> f.status_code >= 400
            &&& v[5] == yes <==> f.method@ == "GET"@
            &&& v[6] == yes <==> f.method@ == "POST"@
            &&& v[7] == yes <==> f.method@ == "PUT"@
            &&& v[8] == yes <==> f.method@ == "DELETE"@
            &&& forall|i: int| 4 <= i <= 8 ==> #[trigger] v[i] == yes || v[i] == no
            &&& v[9] == Binary64::of_nat(text::byte_length(f.path@) as nat).quotient(
                Binary64::of_nat(100),
            )
            &&& text::byte_length(f.path@) == 0 ==> v[9] == no
            &&& text::byte_length(f.path@) == 100 ==> v[9] == yes
        }),
{
    binary64::zero_is_zero();
    let hundred = Binary64 { bits: 0x4059_0000_0000_0000 };
    lemma_hundred();
    binary64::zero_stays_zero(hundred);
    let unit = vstd::arithmetic::power2::pow2(binary64::UNIT_PLACES as nat);
    let u = binary64::units(hundred.magnitude());
    binary64::lemma_one();
    binary64::lemma_round_is_exact(one().magnitude(), u);
    assert(unit * u == u * unit) by (nonlinear_arith);
}

/// The double of a hundred.
pub(crate) proof fn lemma_hundred()
    ensures
        Binary64::of_nat(100) == (Binary64 { bits: 0x4059_0000_0000_0000 }),
        binary64::units(0x4059_0000_0000_0000) > 0,
{
    let unit = vstd::arithmetic::power2::pow2(binary64::UNIT_PLACES as nat);
    vstd::arithmetic::power2::lemma_pow2_pos(binary64::UNIT_PLACES as nat);
    vstd::arithmetic::power2::lemma2_to64();
    vstd::arithmetic::power2::lemma2_to64_rest();
    binary64::lemma_units_of_fields(0x405, 0x9_0000_0000_0000);
    let w = vstd::arithmetic::power2::pow2(1028);
    vstd::arithmetic::power2::lemma_pow2_adds(46, 1028);
    vstd::arithmetic::power2::lemma_pow2_pos(1028);
    let m = 0x4059_0000_0000_0000nat;
    assert(binary64::units(m) == 0x19_0000_0000_0000 * w);
    assert(unit == 0x4000_0000_0000 * w);
    assert(binary64::units(m) == 100 * unit);
    binary64::lemma_round_is_exact(m, 1);
    assert(binary64::units(m) * 1 == binary64::units(m));
}

/// A request is learned with the label that it has by the statistics it is part of, and with a
/// weight of one, as the latest of those that are kept; of the others only the oldest is given
/// up, when there is no room. Nothing is changed in the models.
pub proof fn requests_are_kept_in_order(m: LearnerModel, f: RequestFeatures)
    requires
        m.buffer.len() <= 10000,
    ensures
        ({
            let after = learned(m, f);
            &&& after.models == m.models
            &&& after.stats == stats_with(m.stats, f)
            &&& after.buffer.len() > 0
            &&& after.buffer.last().features == f
            &&& after.buffer.last().weight == Binary64::one()
            &&& is_outlier(after.stats, f) ==> after.buffer.last().label == Binary64::one()
            &&& !is_outlier(after.stats, f) ==> after.buffer.last().label == (Binary64 { bits: 0 })
            &&& m.buffer.len() < 10000 ==> after.buffer.drop_last() == m.buffer
            &&& m.buffer.len() == 10000 ==> after.buffer.drop_last() == m.buffer.skip(1)
        }),
{
    let after = learned(m, f);
    let all = m.buffer.push(labelled(after.stats, f));
    if m.buffer.len() < 10000 {
        assert(after.buffer.drop_last() =~= m.buffer);
    } else {
        assert(after.buffer == all.skip(1));
        assert(after.buffer.drop_last() =~= m.buffer.skip(1));
    }
}

/// A model is trained anew at every thousand requests in the buffer, and can be with a hundred
/// or more. The training starts from nothing, with every request of the buffer at its place, as
/// the statistics now tell it, under its label and weight.
pub proof fn trainings_take_every_request(m: LearnerModel, k: int)
    ensures
        is_training_due(m) <==> exists|j: int|
            j > 0 && m.buffer.len() == #[trigger] (j * 1000),
        m.buffer.len() < 100 || m.models.len() == 0 ==> !can_train(m),
        m.buffer.len() >= 100 && m.models.len() > 0 ==> (can_train(m) <==> m.models[0].model_type
            == ModelType::LogisticRegression),
        ({
            let t = new_training(m);
            &&& t.rows.len() == m.buffer.len()
            &&& t.labels.len() == m.buffer.len()
            &&& t.weights.len() == m.buffer.len()
            &&& t.epochs == 0
            &&& t.parameters.len() == 10
            &&& 0 <= k < 10 ==> t.parameters[k] == (Binary64 { bits: 0 })
            &&& 0 <= k < m.buffer.len() ==> {
                &&& t.rows[k] == feature_vector(m.stats, m.buffer[k].features)
                &&& t.labels[k] == m.buffer[k].label
                &&& t.weights[k] == m.buffer[k].weight
            }
        }),
{
    let n = m.buffer.len() as int;
    if is_training_due(m) {
        let j = n / 1000;
        assert(n == j * 1000 && j > 0);
    }
    if exists|j: int| j > 0 && n == #[trigger] (j * 1000) {
        let j = choose|j: int| j > 0 && n == #[trigger] (j * 1000);
        assert(n % 1000 == 0);
    }
}

proof fn lemma_gradient_prefix(
    t: TrainingModel,
    u: TrainingModel,
    powers: Seq<Binary64>,
    others: Seq<Binary64>,
    n: nat,
    i: int,
)
    requires
        forall|k: int| 0 <= k < n ==> #[trigger] t.rows[k] == u.rows[k],
        forall|k: int| 0 <= k < n ==> #[trigger] t.labels[k] == u.labels[k],
        forall|k: int| 0 <= k < n ==> #[trigger] t.weights[k] == u.weights[k],
        forall|k: int| 0 <= k < n ==> #[trigger] powers[k] == others[k],
    ensures
        gradient(t, powers, n, i) == gradient(u, others, n, i),
    decreases n,
{
    if n > 0 {
        lemma_gradient_prefix(t, u, powers, others, (n - 1) as nat, i);
        let k = n - 1;
        assert(t.rows[k] == u.rows[k]);
        assert(t.labels[k] == u.labels[k]);
        assert(t.weights[k] == u.weights[k]);
        assert(powers[k] == others[k]);
    }
}

/// Every request adds to the gradient: one request more adds its error, which is the logistic
/// value less the label, times its feature and its weight.
pub proof fn every_request_adds_to_the_gradient(
    t: TrainingModel,
    powers: Seq<Binary64>,
    row: Seq<Binary64>,
    label: Binary64,
    weight: Binary64,
    power: Binary64,
    i: int,
)
    requires
        t.labels.len() == t.rows.len(),
        t.weights.len() == t.rows.len(),
        powers.len() == t.rows.len(),
    ensures
        gradient(t, powers, 0, i) == (Binary64 { bits: 0 }),
        gradient(
            TrainingModel {
                rows: t.rows.push(row),
                labels: t.labels.push(label),
                weights: t.weights.push(weight),
                ..t
            },
            powers.push(power),
            t.rows.len() + 1,
            i,
        ) == gradient(t, powers, t.rows.len(), i).sum(
            logistic(power).sum(label.opposite()).product(row[i]).product(weight),
        ),
{
    let n = t.rows.len();
    let more = TrainingModel {
        rows: t.rows.push(row),
        labels: t.labels.push(label),
        weights: t.weights.push(weight),
        ..t
    };
    lemma_gradient_prefix(more, t, powers.push(power), powers, n, i);
    assert(more.rows[n as int] == row && more.labels[n as int] == label && more.weights[n as int]
        == weight && powers.push(power)[n as int] == power);
}

/// Each of the first `n` requests is given too high a value, or just its label, or each too low
/// a one; and counts with the same weight.
pub open spec fn errs_one_way(
    t: TrainingModel,
    powers: Seq<Binary64>,
    n: nat,
    i: int,
    up: bool,
) -> bool {
    forall|k: int|
        0 <= k < n ==> {
            let error = logistic(#[trigger] powers[k]).sum(t.labels[k].opposite());
            &&& error.finite()
            &&& t.rows[k][i].finite() && !t.rows[k][i].negative()
            &&& t.weights[k] == Binary64::one()
            &&& up ==> error.rank() >= 0
            &&& !up ==> error.rank() <= 0
        }
}

proof fn lemma_sign_of_step(error: Binary64, x: Binary64)
    requires
        error.finite(),
        x.finite() && !x.negative(),
    ensures
        !error.product(x).product(one()).nan(),
        error.rank() >= 0 ==> error.product(x).product(one()).rank() >= 0,
        error.rank() <= 0 ==> error.product(x).product(one()).rank() <= 0,
{
    precision::products_keep_signs(error, x);
    binary64::lemma_one();
    if error.product(x).finite() {
        precision::products_keep_signs(error.product(x), one());
    }
}

proof fn lemma_gradient_sign(t: TrainingModel, powers: Seq<Binary64>, n: nat, i: int, up: bool)
    requires
        errs_one_way(t, powers, n, i, up),
    ensures
        !gradient(t, powers, n, i).nan(),
        up ==> gradient(t, powers, n, i).rank() >= 0,
        !up ==> gradient(t, powers, n, i).rank() <= 0,
    decreases n,
{
    if n > 0 {
        let k = n - 1;
        lemma_gradient_sign(t, powers, k as nat, i, up);
        let error = difference(logistic(powers[k]), t.labels[k]);
        assert(error.finite());
        lemma_sign_of_step(error, t.rows[k][i]);
        precision::sums_keep_signs(
            gradient(t, powers, k as nat, i),
            error.product(t.rows[k][i]).product(one()),
        );
    }
}

/// A training goes against its errors: where every request is given too high a value, or just
/// its label, no parameter of a feature that is not negative grows; where every request is given
/// too low a value, none falls.
pub proof fn trainings_go_against_their_errors(
    t: TrainingModel,
    powers: Seq<Binary64>,
    i: int,
    up: bool,
)
    requires
        0 <= i < 10,
        0 < t.rows.len() <= 0x20_0000_0000_0000,
        t.parameters[i].finite(),
        errs_one_way(t, powers, t.rows.len(), i, up),
    ensures
        stepped(t, powers).len() == 10,
        up ==> !stepped(t, powers)[i].above(t.parameters[i]),
        !up ==> !t.parameters[i].above(stepped(t, powers)[i]),
{
    let n = t.rows.len();
    lemma_gradient_sign(t, powers, n, i, up);
    let g = gradient(t, powers, n, i);
    let rate = Binary64 { bits: 0x3F84_7AE1_47AE_147B };
    let count = Binary64::of_nat(n);
    binary64::whole_numbers_are_finite(n);
    precision::products_keep_signs(g, rate);
    precision::products_commute(g, rate);
    let move_by = rate.product(g).quotient(count);
    precision::quotients_keep_signs(rate.product(g), count);
    precision::opposites_turn_the_order(move_by, move_by);
    precision::sums_go_the_way_of_what_is_added(t.parameters[i], move_by.opposite());
}

proof fn lemma_dot_of_zeros(w: Seq<Binary64>, x: Seq<Binary64>, n: nat)
    requires
        n <= w.len() && n <= x.len(),
        forall|i: int| 0 <= i < n ==> #[trigger] w[i] == zero(),
        forall|i: int| 0 <= i < n ==> (#[trigger] x[i]).finite(),
    ensures
        dot(w, x, n) == zero(),
    decreases n,
{
    if n > 0 {
        lemma_dot_of_zeros(w, x, (n - 1) as nat);
        let y = x[n - 1];
        assert(y.finite() && w[n - 1] == zero());
        precision::zero_times_anything(y);
    }
}

/// A model that has learned nothing yet has no preference: of every request that is told in
/// finite numbers, its exponent is nought, so its logistic value is a half.
pub proof fn new_models_have_no_preference(
    models: Seq<LearningModel>,
    s: FeatureStatistics,
    f: RequestFeatures,
)
    requires
        models.len() > 0,
        is_first_model(models[0]),
        forall|i: int|
            0 <= i < feature_vector(s, f).len() ==> (#[trigger] feature_vector(s, f)[i]).finite(),
    ensures
        predicted(models, s, f) is Logistic,
        predicted(models, s, f)->exponent.zero(),
        logistic(Binary64::one()) == (Binary64 { bits: 0x3FE0_0000_0000_0000 }),
        models[0].accuracy == logistic(Binary64::one()),
        models[0].training_samples == 0,
{
    let w = models[0].parameters@;
    let x = feature_vector(s, f);
    lemma_dot_of_zeros(w, x, shorter(w, x));
    lemma_half();
}

/// Before any request, nothing is known of requests.
pub proof fn statistics_start_empty()
    ensures
        no_statistics().sample_count == 0,
        no_statistics().response_time_mean.zero() && no_statistics().response_time_std.zero(),
        no_statistics().request_size_mean.zero() && no_statistics().request_size_std.zero(),
        no_statistics().response_size_mean.zero() && no_statistics().response_size_std.zero(),
        forall|f: RequestFeatures| !#[trigger] is_outlier(no_statistics(), f),
{
}

/// A value that lies a whole number of deviations above a mean, or below it, is told by that
/// number, as long as doubles are exact.
pub proof fn whole_deviations_are_told(mean: nat, deviation: nat, times: nat, x: u64)
    requires
        0 < deviation,
        mean <= 0x20_0000_0000_0000,
        x <= 0x20_0000_0000_0000,
        times * deviation <= 0x20_0000_0000_0000,
        deviation <= 0x20_0000_0000_0000,
    ensures
        x == mean + times * deviation ==> normalized(
            x,
            Binary64::of_nat(mean),
            Binary64::of_nat(deviation),
        ) == Binary64::of_nat(times),
        x + times * deviation == mean && times > 0 ==> normalized(
            x,
            Binary64::of_nat(mean),
            Binary64::of_nat(deviation),
        ) == Binary64::of_nat(times).opposite(),
        x == mean + times * deviation || x + times * deviation == mean ==> distance(
            x,
            Binary64::of_nat(mean),
            Binary64::of_nat(deviation),
        ) == Binary64::of_nat(times),
{
    let d = Binary64::of_nat(deviation);
    let n = times * deviation;
    binary64::whole_numbers_are_finite(deviation);
    assert(d.above(zero()));
    precision::whole_numbers_subtract(x as nat, mean);
    precision::multiples_divide_evenly(times, deviation);
    assert(n >= 0) by (nonlinear_arith)
        requires
            n == times * deviation,
            times >= 0,
            deviation >= 0,
    ;
    binary64::whole_numbers_are_exact(n as nat);
    binary64::whole_numbers_are_finite(n as nat);
    assert(times > 0 ==> n > 0) by (nonlinear_arith)
        requires
            n == times * deviation,
            deviation > 0,
    ;
    assert(times == 0 ==> n == 0) by (nonlinear_arith)
        requires
            n == times * deviation,
    ;
    lemma_opposite_over(Binary64::of_nat(n as nat), d);
    precision::opposites_turn_the_order(Binary64::of_nat(n as nat), d);
    assert(times <= n) by (nonlinear_arith)
        requires
            n == times * deviation,
            deviation >= 1,
    ;
    binary64::whole_numbers_are_exact(times);
    lemma_own_size(Binary64::of_nat(n as nat));
}

proof fn lemma_own_size(x: Binary64)
    requires
        !x.negative(),
    ensures
        x.size() == x,
        x.opposite().size() == x,
{
}

proof fn lemma_opposite_over(x: Binary64, y: Binary64)
    requires
        x.finite() && !x.negative(),
        y.finite() && !y.negative() && !y.zero(),
    ensures
        x.opposite().quotient(y) == x.quotient(y).opposite(),
{
}

/// The mean of whole values is theirs, as long as doubles are exact: a value that lies so many
/// times the new count above the mean raises it by that number, and one so far below lowers it.
pub proof fn means_of_whole_values_are_exact(mean: nat, count: nat, by: nat, x: nat)
    requires
        0 < count <= 0x20_0000_0000_0000,
        mean <= 0x20_0000_0000_0000,
        x <= 0x20_0000_0000_0000,
        by * count <= 0x20_0000_0000_0000,
    ensures
        x == mean + by * count ==> next_mean(
            Binary64::of_nat(mean),
            Binary64::of_nat(x),
            Binary64::of_nat(count),
        ) == Binary64::of_nat(mean + by),
        x + by * count == mean ==> next_mean(
            Binary64::of_nat(mean),
            Binary64::of_nat(x),
            Binary64::of_nat(count),
        ) == Binary64::of_nat((mean - by) as nat),
{
    let n = by * count;
    assert(by <= n && (by > 0 ==> n > 0)) by (nonlinear_arith)
        requires
            n == by * count,
            count >= 1,
            by >= 0,
    ;
    precision::whole_numbers_subtract(x, mean);
    precision::multiples_divide_evenly(by, count);
    binary64::whole_numbers_are_finite(count);
    binary64::whole_numbers_are_exact(n);
    lemma_opposite_over(Binary64::of_nat(n), Binary64::of_nat(count));
    binary64::whole_numbers_add_and_multiply(mean, by);
    precision::whole_numbers_subtract(mean, by);
}

/// The deviation of whole values is theirs, as long as doubles are exact. With `before` values
/// of mean `mean` and deviation `deviation`, a value that raises the mean by `by` leaves the
/// squared deviations so far, and `by` times `by` for each value before, shared among the values
/// and the new one; where that is a square, its root is the deviation.
pub proof fn deviations_of_whole_values_are_exact(
    mean: nat,
    deviation: nat,
    before: nat,
    by: nat,
    next: nat,
)
    requires
        mean + by * (before + 1) <= 0x20_0000_0000_0000,
        before * (deviation * deviation) + (by * (before + 1)) * (by * before) == (next * next) * (
        before + 1),
        (next * next) * (before + 1) <= 0x20_0000_0000_0000,
        deviation * deviation <= 0x20_0000_0000_0000,
        deviation <= 0x20_0000_0000_0000,
        before < 0x20_0000_0000_0000,
    ensures
        next_deviation(
            Binary64::of_nat(mean),
            Binary64::of_nat(deviation),
            Binary64::of_nat(mean + by * (before + 1)),
            Binary64::of_nat(before),
            Binary64::of_nat(before + 1),
        ) == Binary64::of_nat(next),
{
    let count = before + 1;
    let rise = by * count;
    let rest = by * before;
    let x = mean + rise;
    let (m, v) = (Binary64::of_nat(mean), Binary64::of_nat(x));
    assert(rise == rest + by && rest <= rise && by <= rise) by (nonlinear_arith)
        requires
            rise == by * count,
            rest == by * before,
            count == before + 1,
    ;
    means_of_whole_values_are_exact(mean, count, by, x);
    precision::whole_numbers_subtract(x, mean);
    precision::whole_numbers_subtract(x, mean + by);
    assert(difference(v, m) == Binary64::of_nat(rise));
    assert(difference(v, next_mean(m, v, Binary64::of_nat(count))) == Binary64::of_nat(rest));
    binary64::whole_numbers_add_and_multiply(rise, rest);
    binary64::whole_numbers_add_and_multiply(deviation, deviation);
    let square = deviation * deviation;
    binary64::whole_numbers_add_and_multiply(before, square);
    let (a, b) = (before * square, rise * rest);
    assert(a >= 0 && b >= 0) by (nonlinear_arith)
        requires
            a == before * square,
            b == rise * rest,
            before >= 0,
            square >= 0,
            rise >= 0,
            rest >= 0,
    ;
    binary64::whole_numbers_add_and_multiply(a, b);
    precision::multiples_divide_evenly(next * next, count);
    assert(next * next <= (next * next) * count) by (nonlinear_arith)
        requires
            count >= 1,
    ;
    precision::roots_of_squares_are_exact(next);
}

proof fn lemma_same_gradient(t: TrainingModel, powers: Seq<Binary64>, n: nat, i: int, j: int)
    requires
        forall|k: int| 0 <= k < n ==> (#[trigger] t.rows[k])[i] == t.rows[k][j],
    ensures
        gradient(t, powers, n, i) == gradient(t, powers, n, j),
    decreases n,
{
    if n > 0 {
        lemma_same_gradient(t, powers, (n - 1) as nat, i, j);
        assert(t.rows[n - 1][i] == t.rows[n - 1][j]);
    }
}

/// A step treats all parameters alike: two that are the same, for features that are the same in
/// every request, are the same after it. The other parameters do not matter for one of them.
pub proof fn parameters_are_treated_alike(
    t: TrainingModel,
    others: Seq<Binary64>,
    powers: Seq<Binary64>,
    i: int,
    j: int,
)
    requires
        0 <= i < 10,
        0 <= j < 10,
    ensures
        t.parameters[i] == t.parameters[j] && (forall|k: int|
            0 <= k < t.rows.len() ==> (#[trigger] t.rows[k])[i] == t.rows[k][j]) ==> stepped(
            t,
            powers,
        )[i] == stepped(t, powers)[j],
        others[i] == t.parameters[i] ==> stepped(
            TrainingModel { parameters: others, ..t },
            powers,
        )[i] == stepped(t, powers)[i],
{
    if forall|k: int| 0 <= k < t.rows.len() ==> (#[trigger] t.rows[k])[i] == t.rows[k][j] {
        lemma_same_gradient(t, powers, t.rows.len(), i, j);
    }
    let u = TrainingModel { parameters: others, ..t };
    lemma_gradient_prefix(t, u, powers, powers, t.rows.len(), i);
}

/// A logistic value, times one and the power together, is one, up to two parts in two to the
/// fifty-third for the rounding; for powers up to two to the fifty-third, and in units.
pub proof fn logistic_values_are_close(power: Binary64)
    requires
        power.finite() && !power.negative(),
        !power.above(Binary64::of_nat(0x20_0000_0000_0000)),
    ensures
        ({
            let unit = vstd::arithmetic::power2::pow2(binary64::UNIT_PLACES as nat) as int;
            let v = logistic(power).value();
            let p = precision::PARTS as int;
            &&& logistic(power).finite()
            &&& (p - 1) * (v * (unit + power.value())) <= (p + 1) * (unit * unit)
            &&& (p - 1) * (unit * unit) <= (p + 1) * (v * (unit + power.value()))
        }),
{
    let unit = vstd::arithmetic::power2::pow2(binary64::UNIT_PLACES as nat);
    let limit = 0x20_0000_0000_0000nat;
    vstd::arithmetic::power2::lemma_pow2_pos(binary64::UNIT_PLACES as nat);
    binary64::lemma_one();
    binary64::one_is_one();
    binary64::whole_numbers_are_exact(limit);
    binary64::order_is_that_of_values(power, Binary64::of_nat(limit));
    binary64::lemma_units_at_least(power.magnitude());
    let sum = one().sum(power);
    let exact = (unit + power.value()) as nat;
    let k = binary64::round_units(exact, 1);
    let s = binary64::units(k);
    lemma_sum_is_finite(exact);
    assert(sum.magnitude() == k && !sum.negative() && sum.finite());
    precision::rounding_is_close(exact, 1);
    assert(s * 1 == s);
    let p = precision::PARTS as int;
    assert(p * s <= (p + 1) * exact && (p - 1) * exact <= p * s);
    // The quotient.
    binary64::adding_does_not_lower(one(), power);
    precision::lemma_units_in_order(one().magnitude(), k);
    binary64::shares_are_at_most_one(one(), sum);
    let n = unit * unit;
    precision::rounding_is_close(n, s);
    let v = binary64::units(binary64::round_units(n, s));
    assert(logistic(power).magnitude() == binary64::round_units(n, s));
    lemma_unit_is_large();
    let off = v * s - n;
    assert(p * off <= n && -(p * off) <= n) by {
        assert(0x10_0000_0000_0000 * s <= n) by (nonlinear_arith)
            requires
                p * s <= (p + 1) * exact,
                exact <= unit + 0x20_0000_0000_0000 * unit,
                n == unit * unit,
                unit >= 0x10_0000_0000_0000 * 0x80_0000_0000_0000,
                p == 0x20_0000_0000_0000,
        ;
    }
    lemma_reciprocal(p, v as int, s as int, exact as int, n as int);
}

proof fn lemma_unit_is_large()
    ensures
        vstd::arithmetic::power2::pow2(binary64::UNIT_PLACES as nat) >= 0x10_0000_0000_0000
            * 0x80_0000_0000_0000,
{
    vstd::arithmetic::power2::lemma2_to64();
    vstd::arithmetic::power2::lemma2_to64_rest();
    vstd::arithmetic::power2::lemma_pow2_adds(52, 55);
    vstd::arithmetic::power2::lemma_pow2_strictly_increases(107, 1074);
}

/// A number of units up to two to the fifty-fourth, times one, is rounded within the range.
proof fn lemma_sum_is_finite(exact: nat)
    requires
        exact <= 0x40_0000_0000_0000 * vstd::arithmetic::power2::pow2(
            binary64::UNIT_PLACES as nat,
        ),
    ensures
        binary64::round_units(exact, 1) < binary64::INFINITE,
{
    let unit = vstd::arithmetic::power2::pow2(binary64::UNIT_PLACES as nat);
    let top = 0x40_0000_0000_0000nat;
    binary64::whole_numbers_are_finite(top);
    binary64::rounding_keeps_order(exact, top * unit, 1);
}

proof fn lemma_reciprocal(p: int, v: int, s: int, exact: int, n: int)
    requires
        p == 0x20_0000_0000_0000,
        v >= 0,
        exact >= 0,
        n >= 0,
        p * s <= (p + 1) * exact,
        (p - 1) * exact <= p * s,
        p * (v * s - n) <= n,
        -(p * (v * s - n)) <= n,
    ensures
        (p - 1) * (v * exact) <= (p + 1) * n,
        (p - 1) * n <= (p + 1) * (v * exact),
{
    let x = v * s;
    let y = v * exact;
    assert(p * x <= (p + 1) * y) by (nonlinear_arith)
        requires
            p * s <= (p + 1) * exact,
            x == v * s,
            y == v * exact,
            v >= 0,
    ;
    assert((p - 1) * y <= p * x) by (nonlinear_arith)
        requires
            (p - 1) * exact <= p * s,
            x == v * s,
            y == v * exact,
            v >= 0,
    ;
    assert(p * x <= (p + 1) * n && (p - 1) * n <= p * x) by (nonlinear_arith)
        requires
            p * (x - n) <= n,
            -(p * (x - n)) <= n,
    ;
}

} // verus!
