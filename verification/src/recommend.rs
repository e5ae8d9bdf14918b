//! The federated recommender: a small neural collaborative-filtering model
//! over fixed-point weights, trained locally and combined across peers by
//! parameter averaging.
//!
//! Weights are fixed-point numbers scaled by `SCALE`; every parameter is kept
//! within `PARAM_LIMIT`, the analogue of finiteness: an update that would
//! leave the range fails with `NumericalInstability` and changes nothing.

use vstd::prelude::*;
use vstd::arithmetic::div_mod::{lemma_div_is_ordered, lemma_fundamental_div_mod};
use crate::store::FileMetadata;
use crate::util::StringMap;

verus! {

pub const EMBEDDING_SIZE: usize = 32;

pub const HIDDEN_SIZE: usize = 16;

pub const OUTPUT_SIZE: usize = 1;

/// The fixed-point scale: 1.0 is represented as `SCALE`.
pub const SCALE: i64 = 65536;

/// The largest magnitude a parameter or score may take.
pub const PARAM_LIMIT: i64 = 1073741824;

/// Errors of the recommender.
#[derive(Clone, Debug)]
pub enum AIError {
    MutexPoisoned,
    ShapeError(String),
    NumericalInstability,
    ModelValidation(String),
}

/// The model: one 32-wide embedding per user and per file, a 16-wide ReLU
/// layer and a single linear output.
pub struct NCFModel {
    pub user_embeddings: StringMap<Vec<i64>>,
    pub file_embeddings: StringMap<Vec<i64>>,
    pub w1: Vec<Vec<i64>>,
    pub w2: Vec<Vec<i64>>,
    pub b1: Vec<i64>,
    pub b2: Vec<i64>,
    pub epoch: u32,
}

/// Every entry within the parameter range.
pub open spec fn bounded_vec(v: Seq<i64>) -> bool {
    forall|i: int| 0 <= i < v.len() ==> -PARAM_LIMIT <= #[trigger] v[i] <= PARAM_LIMIT
}

pub open spec fn embeddings_wf(m: &StringMap<Vec<i64>>) -> bool {
    &&& m.wf()
    &&& forall|k: Seq<char>|
        #[trigger] m@.contains_key(k) ==> m@[k]@.len() == EMBEDDING_SIZE && bounded_vec(m@[k]@)
}

impl NCFModel {
    /// Fixed shapes and bounded parameters.
    pub open spec fn wf(&self) -> bool {
        &&& embeddings_wf(&self.user_embeddings)
        &&& embeddings_wf(&self.file_embeddings)
        &&& self.w1@.len() == HIDDEN_SIZE
        &&& forall|i: int|
            0 <= i < HIDDEN_SIZE ==> (#[trigger] self.w1@[i])@.len() == 2 * EMBEDDING_SIZE
                && bounded_vec(self.w1@[i]@)
        &&& self.w2@.len() == OUTPUT_SIZE
        &&& forall|i: int|
            0 <= i < OUTPUT_SIZE ==> (#[trigger] self.w2@[i])@.len() == HIDDEN_SIZE
                && bounded_vec(self.w2@[i]@)
        &&& self.b1@.len() == HIDDEN_SIZE
        &&& bounded_vec(self.b1@)
        &&& self.b2@.len() == OUTPUT_SIZE
        &&& bounded_vec(self.b2@)
    }
}

/// The deterministic initial first-layer weight at a position: a small value
/// spread over `[-10, 10]` scaled by 64.
pub open spec fn spec_init_weight(i: int, j: int) -> i64 {
    ((((i * 31 + j * 17) % 21) - 10) * 64) as i64
}

fn init_weight(i: usize, j: usize) -> (r: i64)
    requires
        i < 64,
        j < 64,
    ensures
        r == spec_init_weight(i as int, j as int),
        -640 <= r <= 640,
{
    let mix: usize = i * 31 + j * 17;
    let d: i64 = (mix % 21) as i64 - 10;
    d * 64
}

/// Truncating division (rounding toward zero), the semantics of scaling down.
pub open spec fn tdiv(x: int, d: int) -> int {
    if x >= 0 {
        x / d
    } else {
        -((-x) / d)
    }
}

/// The inner product of two equal-length vectors.
pub open spec fn spec_dot(a: Seq<i64>, b: Seq<i64>) -> int
    decreases a.len(),
{
    if a.len() == 0 || b.len() == 0 {
        0
    } else {
        spec_dot(a.drop_last(), b.drop_last()) + (a.last() * b.last())
    }
}

pub open spec fn relu(x: int) -> int {
    if x < 0 {
        0
    } else {
        x
    }
}

/// The embedding used for a key in the forward pass: the stored one, or the
/// zero vector for an unknown key.
pub open spec fn embedding_or_zero(m: &StringMap<Vec<i64>>, key: Seq<char>) -> Seq<i64> {
    if m@.contains_key(key) {
        m@[key]@
    } else {
        Seq::new(EMBEDDING_SIZE as nat, |i: int| 0i64)
    }
}

/// One hidden activation of the forward pass.
pub open spec fn spec_hidden(m: &NCFModel, input: Seq<i64>, i: int) -> int {
    relu(tdiv(spec_dot(m.w1@[i]@, input), SCALE as int) + m.b1@[i])
}

/// The input of the forward pass: the two embeddings, concatenated.
pub open spec fn spec_input(m: &NCFModel, user: Seq<char>, file: Seq<char>) -> Seq<i64> {
    embedding_or_zero(&m.user_embeddings, user) + embedding_or_zero(&m.file_embeddings, file)
}

/// All hidden activations of the forward pass.
pub open spec fn spec_hidden_seq(m: &NCFModel, input: Seq<i64>) -> Seq<int> {
    Seq::new(HIDDEN_SIZE as nat, |i: int| spec_hidden(m, input, i))
}

/// The forward score, or nothing when an intermediate leaves the parameter
/// range (the analogue of a non-finite intermediate).
pub open spec fn spec_forward(m: &NCFModel, user: Seq<char>, file: Seq<char>) -> Option<int> {
    let hidden = spec_hidden_seq(m, spec_input(m, user, file));
    if exists|i: int| 0 <= i < hidden.len() && #[trigger] hidden[i] > PARAM_LIMIT {
        None
    } else {
        let out = tdiv(spec_dot_mixed(m.w2@[0]@, hidden), SCALE as int) + m.b2@[0];
        if -PARAM_LIMIT <= out <= PARAM_LIMIT {
            Some(out)
        } else {
            None
        }
    }
}

/// The inner product of a weight vector with a vector of intermediate values.
pub open spec fn spec_dot_mixed(a: Seq<i64>, b: Seq<int>) -> int
    decreases a.len(),
{
    if a.len() == 0 || b.len() == 0 {
        0
    } else {
        spec_dot_mixed(a.drop_last(), b.drop_last()) + (a.last() * b.last())
    }
}

/// Scales a wide accumulator down by `SCALE`, rounding toward zero.
fn scale_down(x: i128) -> (r: i64)
    requires
        -0x4000_0000_0000_0000_0000i128 <= x <= 0x4000_0000_0000_0000_0000i128,
    ensures
        r as int == tdiv(x as int, SCALE as int),
        -0x4000_0000_0000_0000i64 <= r <= 0x4000_0000_0000_0000i64,
{
    if x >= 0 {
        let q = (x as u128) / 65536;
        proof {
            assert(q == (x as int) / 65536);
            lemma_fundamental_div_mod(x as int, 65536);
            assert(65536 * (q as int) <= x as int);
            assert(65536 * (q as int) <= 0x4000_0000_0000_0000_0000int);
            assert(q as int <= 0x4000_0000_0000_0000int);
        }
        q as i64
    } else {
        let q = ((-x) as u128) / 65536;
        proof {
            assert(q == ((-x) as int) / 65536);
            lemma_fundamental_div_mod((-x) as int, 65536);
            assert(65536 * (q as int) <= (-x) as int);
            assert(65536 * (q as int) <= 0x4000_0000_0000_0000_0000int);
            assert(q as int <= 0x4000_0000_0000_0000int);
        }
        -(q as i64)
    }
}

/// The bounded inner product of two parameter vectors, exact.
fn dot_i64(a: &Vec<i64>, b: &Vec<i64>) -> (r: i128)
    requires
        a@.len() == b@.len(),
        a@.len() <= 64,
        bounded_vec(a@),
        bounded_vec(b@),
    ensures
        r as int == spec_dot(a@, b@),
        -0x4000_0000_0000_0000_0000i128 <= r <= 0x4000_0000_0000_0000_0000i128,
{
    let mut acc: i128 = 0;
    let n = a.len();
    for i in 0..n
        invariant
            n == a@.len(),
            n == b@.len(),
            n <= 64,
            bounded_vec(a@),
            bounded_vec(b@),
            acc as int == spec_dot(a@.take(i as int), b@.take(i as int)),
            -(i as i128) * 0x1000_0000_0000_0000i128 <= acc <= (i as i128)
                * 0x1000_0000_0000_0000i128,
    {
        proof {
            assert(-0x1000_0000_0000_0000i128 <= (a@[i as int] as i128) * (b@[i as int] as i128)
                <= 0x1000_0000_0000_0000i128) by (nonlinear_arith)
                requires
                    -PARAM_LIMIT <= a@[i as int] <= PARAM_LIMIT,
                    -PARAM_LIMIT <= b@[i as int] <= PARAM_LIMIT,
            ;
            assert((i as i128 + 1) * 0x1000_0000_0000_0000i128 == (i as i128)
                * 0x1000_0000_0000_0000i128 + 0x1000_0000_0000_0000i128) by (nonlinear_arith);
        }
        let prod: i128 = (a[i] as i128) * (b[i] as i128);
        acc = acc + prod;
        proof {
            assert(a@.take(i + 1).drop_last() =~= a@.take(i as int));
            assert(b@.take(i + 1).drop_last() =~= b@.take(i as int));
            assert(a@.take(i + 1).last() == a@[i as int]);
            assert(b@.take(i + 1).last() == b@[i as int]);
        }
    }
    proof {
        assert(a@.take(n as int) =~= a@);
        assert(b@.take(n as int) =~= b@);
        assert((n as i128) * 0x1000_0000_0000_0000i128 <= 64i128 * 0x1000_0000_0000_0000i128)
            by (nonlinear_arith)
            requires
                n <= 64,
        ;
    }
    acc
}

impl NCFModel {
    /// A fresh model with deterministic small first-layer weights, zero
    /// biases and no embeddings.
    pub fn new() -> (r: NCFModel)
        ensures
            r.wf(),
            r.epoch == 0,
            r.user_embeddings@ == Map::<Seq<char>, Vec<i64>>::empty(),
            r.file_embeddings@ == Map::<Seq<char>, Vec<i64>>::empty(),
            forall|i: int, j: int|
                0 <= i < HIDDEN_SIZE && 0 <= j < 2 * EMBEDDING_SIZE ==> #[trigger] (r.w1@[i]@[j])
                    == spec_init_weight(i, j),
            forall|i: int, j: int|
                0 <= i < OUTPUT_SIZE && 0 <= j < HIDDEN_SIZE ==> #[trigger] (r.w2@[i]@[j])
                    == spec_init_weight(i + 16, j),
            forall|i: int| 0 <= i < HIDDEN_SIZE ==> r.b1@[i] == 0,
            forall|i: int| 0 <= i < OUTPUT_SIZE ==> r.b2@[i] == 0,
    {
        let mut w1: Vec<Vec<i64>> = Vec::new();
        for i in 0..HIDDEN_SIZE
            invariant
                w1@.len() == i,
                forall|a: int|
                    0 <= a < i ==> (#[trigger] w1@[a])@.len() == 2 * EMBEDDING_SIZE && bounded_vec(
                        w1@[a]@,
                    ) && (forall|j: int|
                        0 <= j < 2 * EMBEDDING_SIZE ==> w1@[a]@[j] == spec_init_weight(a, j)),
        {
            let mut row: Vec<i64> = Vec::new();
            for j in 0..(2 * EMBEDDING_SIZE)
                invariant
                    i < HIDDEN_SIZE,
                    row@.len() == j,
                    forall|b: int|
                        0 <= b < j ==> #[trigger] row@[b] == spec_init_weight(i as int, b)
                            && -640 <= row@[b] <= 640,
            {
                row.push(init_weight(i, j));
            }
            w1.push(row);
        }
        let mut w2: Vec<Vec<i64>> = Vec::new();
        for i in 0..OUTPUT_SIZE
            invariant
                w2@.len() == i,
                forall|a: int|
                    0 <= a < i ==> (#[trigger] w2@[a])@.len() == HIDDEN_SIZE && bounded_vec(
                        w2@[a]@,
                    ) && (forall|j: int|
                        0 <= j < HIDDEN_SIZE ==> w2@[a]@[j] == spec_init_weight(a + 16, j)),
        {
            let mut row: Vec<i64> = Vec::new();
            for j in 0..HIDDEN_SIZE
                invariant
                    i < OUTPUT_SIZE,
                    row@.len() == j,
                    forall|b: int|
                        0 <= b < j ==> #[trigger] row@[b] == spec_init_weight(i + 16, b) && -640
                            <= row@[b] <= 640,
            {
                row.push(init_weight(i + 16, j));
            }
            w2.push(row);
        }
        let mut b1: Vec<i64> = Vec::new();
        for i in 0..HIDDEN_SIZE
            invariant
                b1@.len() == i,
                forall|a: int| 0 <= a < i ==> #[trigger] b1@[a] == 0,
        {
            b1.push(0);
        }
        let mut b2: Vec<i64> = Vec::new();
        for i in 0..OUTPUT_SIZE
            invariant
                b2@.len() == i,
                forall|a: int| 0 <= a < i ==> #[trigger] b2@[a] == 0,
        {
            b2.push(0);
        }
        NCFModel {
            user_embeddings: StringMap::new(),
            file_embeddings: StringMap::new(),
            w1,
            w2,
            b1,
            b2,
            epoch: 0,
        }
    }

    /// The forward score for a user and a file; unknown keys score with the
    /// zero embedding. Fails exactly when an intermediate leaves the
    /// parameter range.
    pub fn forward(&self, user: &str, file: &str) -> (r: Result<i64, AIError>)
        requires
            self.wf(),
        ensures
            spec_forward(self, user@, file@) matches Some(v) ==> (r matches Ok(x) && x as int
                == v),
            spec_forward(self, user@, file@) is None ==> r == Err::<i64, AIError>(
                AIError::NumericalInstability,
            ),
    {
        let ghost ue_spec = embedding_or_zero(&self.user_embeddings, user@);
        let ghost fe_spec = embedding_or_zero(&self.file_embeddings, file@);
        let mut input: Vec<i64> = Vec::new();
        match self.user_embeddings.get(user) {
            Some(e) => {
                proof {
                    lemma_embedding_value(&self.user_embeddings, user@);
                }
                let mut copy = clone_i64s(e);
                input.append(&mut copy);
            },
            None => {
                for i in 0..EMBEDDING_SIZE
                    invariant
                        input@.len() == i,
                        forall|a: int| 0 <= a < i ==> #[trigger] input@[a] == 0,
                {
                    input.push(0);
                }
            },
        }
        proof {
            assert(input@ =~= ue_spec);
        }
        match self.file_embeddings.get(file) {
            Some(e) => {
                proof {
                    lemma_embedding_value(&self.file_embeddings, file@);
                }
                let mut copy = clone_i64s(e);
                input.append(&mut copy);
            },
            None => {
                let ghost before = input@;
                for i in 0..EMBEDDING_SIZE
                    invariant
                        input@.len() == before.len() + i,
                        input@.take(before.len() as int) == before,
                        forall|a: int|
                            before.len() <= a < input@.len() ==> #[trigger] input@[a] == 0,
                {
                    input.push(0);
                    proof {
                        assert(input@.take(before.len() as int) =~= before);
                    }
                }
            },
        }
        proof {
            if self.user_embeddings@.contains_key(user@) {
                lemma_embedding_value(&self.user_embeddings, user@);
            }
            if self.file_embeddings@.contains_key(file@) {
                lemma_embedding_value(&self.file_embeddings, file@);
            }
            assert(input@ =~= ue_spec + fe_spec);
            assert(ue_spec.len() == EMBEDDING_SIZE);
            assert(fe_spec.len() == EMBEDDING_SIZE);
            assert(bounded_vec(input@));
        }
        let ghost input_spec = spec_input(self, user@, file@);
        proof {
            assert(input@ == input_spec);
        }
        let ghost hidden_spec = spec_hidden_seq(self, input_spec);
        let mut hidden: Vec<i64> = Vec::new();
        for i in 0..HIDDEN_SIZE
            invariant
                self.wf(),
                input@ == input_spec,
                input@.len() == 2 * EMBEDDING_SIZE,
                bounded_vec(input@),
                hidden_spec == spec_hidden_seq(self, input_spec),
                input_spec == spec_input(self, user@, file@),
                hidden@.len() == i,
                forall|a: int|
                    0 <= a < i ==> #[trigger] hidden@[a] as int == hidden_spec[a] && 0
                        <= hidden@[a] <= PARAM_LIMIT,
        {
            let s = dot_i64(&self.w1[i], &input);
            let scaled = scale_down(s);
            let pre: i64 = scaled + self.b1[i];
            let h: i64 = if pre < 0 {
                0
            } else {
                pre
            };
            proof {
                assert(h as int == spec_hidden(self, input_spec, i as int));
            }
            if h > PARAM_LIMIT {
                proof {
                    assert(hidden_spec[i as int] > PARAM_LIMIT);
                    assert(spec_forward(self, user@, file@) is None);
                }
                return Err(AIError::NumericalInstability);
            }
            hidden.push(h);
        }
        let s2 = dot_mixed_i64(&self.w2[0], &hidden);
        let out: i64 = scale_down(s2) + self.b2[0];
        proof {
            assert(hidden@.map_values(|x: i64| x as int) =~= hidden_spec);
            lemma_dot_mixed_eq(self.w2@[0]@, hidden@);
            assert(spec_dot_mixed(self.w2@[0]@, hidden_spec) == spec_dot(self.w2@[0]@, hidden@));
            assert(forall|i: int|
                0 <= i < hidden_spec.len() ==> !(#[trigger] hidden_spec[i] > PARAM_LIMIT));
        }
        if out < -PARAM_LIMIT || out > PARAM_LIMIT {
            return Err(AIError::NumericalInstability);
        }
        Ok(out)
    }
}

/// A stored embedding has the fixed width and bounded entries.
pub proof fn lemma_embedding_value(m: &StringMap<Vec<i64>>, key: Seq<char>)
    requires
        embeddings_wf(m),
        m@.contains_key(key),
    ensures
        m@[key]@.len() == EMBEDDING_SIZE,
        bounded_vec(m@[key]@),
{
}

/// A copy of a parameter vector, element for element.
pub fn clone_i64s(v: &Vec<i64>) -> (r: Vec<i64>)
    ensures
        r@ == v@,
{
    let mut r: Vec<i64> = Vec::new();
    let n = v.len();
    for i in 0..n
        invariant
            n == v@.len(),
            r@ == v@.take(i as int),
    {
        r.push(v[i]);
        proof {
            assert(v@.take(i + 1) =~= v@.take(i as int).push(v@[i as int]));
        }
    }
    proof {
        assert(v@.take(n as int) =~= v@);
    }
    r
}

/// The bounded inner product of a parameter vector with computed activations.
fn dot_mixed_i64(a: &Vec<i64>, b: &Vec<i64>) -> (r: i128)
    requires
        a@.len() == b@.len(),
        a@.len() <= 64,
        bounded_vec(a@),
        bounded_vec(b@),
    ensures
        r as int == spec_dot(a@, b@),
        -0x4000_0000_0000_0000_0000i128 <= r <= 0x4000_0000_0000_0000_0000i128,
{
    dot_i64(a, b)
}

/// Law: the two inner-product readings agree when the activations are the
/// integer values of a vector.
pub proof fn lemma_dot_mixed_eq(a: Seq<i64>, b: Seq<i64>)
    ensures
        spec_dot_mixed(a, b.map_values(|x: i64| x as int)) == spec_dot(a, b),
    decreases a.len(),
{
    let bi = b.map_values(|x: i64| x as int);
    if a.len() == 0 || b.len() == 0 {
    } else {
        assert(bi.drop_last() =~= b.drop_last().map_values(|x: i64| x as int));
        lemma_dot_mixed_eq(a.drop_last(), b.drop_last());
        assert(bi.last() == b.last() as int);
    }
}

} // verus!

verus! {

/// The truncating average of two parameters.
pub open spec fn spec_avg(a: i64, b: i64) -> int {
    tdiv(a + b, 2)
}

/// Law: averaging a parameter with itself gives it back unchanged, so
/// aggregation with an identical model is a fixed point of every parameter.
pub proof fn lemma_avg_idempotent(a: i64)
    ensures
        spec_avg(a, a) == a,
{
    if a >= 0 {
        vstd::arithmetic::div_mod::lemma_div_by_multiple(a as int, 2);
        assert((a + a) as int == (a as int) * 2);
    } else {
        vstd::arithmetic::div_mod::lemma_div_by_multiple(-(a as int), 2);
        assert(-((a + a) as int) == (-(a as int)) * 2);
    }
}

/// The truncating average, within bounds.
fn avg_i64(a: i64, b: i64) -> (r: i64)
    requires
        -PARAM_LIMIT <= a <= PARAM_LIMIT,
        -PARAM_LIMIT <= b <= PARAM_LIMIT,
    ensures
        r as int == spec_avg(a, b),
        -PARAM_LIMIT <= r <= PARAM_LIMIT,
{
    let s: i64 = a + b;
    if s >= 0 {
        let q = (s as u64) / 2;
        proof {
            assert(q == (s as int) / 2);
            lemma_fundamental_div_mod(s as int, 2);
        }
        q as i64
    } else {
        let q = ((-s) as u64) / 2;
        proof {
            assert(q == (-(s as int)) / 2);
            lemma_fundamental_div_mod(-(s as int), 2);
        }
        -(q as i64)
    }
}

/// The elementwise truncating average of two parameter vectors.
fn avg_vec(a: &Vec<i64>, b: &Vec<i64>) -> (r: Vec<i64>)
    requires
        a@.len() == b@.len(),
        bounded_vec(a@),
        bounded_vec(b@),
    ensures
        r@.len() == a@.len(),
        forall|i: int| 0 <= i < r@.len() ==> #[trigger] (r@[i]) as int == spec_avg(a@[i], b@[i]),
        bounded_vec(r@),
{
    let mut r: Vec<i64> = Vec::new();
    let n = a.len();
    for i in 0..n
        invariant
            n == a@.len(),
            n == b@.len(),
            bounded_vec(a@),
            bounded_vec(b@),
            r@.len() == i,
            forall|j: int| 0 <= j < i ==> #[trigger] (r@[j]) as int == spec_avg(a@[j], b@[j]),
            bounded_vec(r@),
    {
        r.push(avg_i64(a[i], b[i]));
    }
    r
}

/// Whether a model passes the structural checks of `wf`.
pub fn check_model_wf(m: &NCFModel) -> (r: bool)
    ensures
        r == m.wf(),
{
    if !check_embeddings_wf(&m.user_embeddings) {
        return false;
    }
    if !check_embeddings_wf(&m.file_embeddings) {
        return false;
    }
    if m.w1.len() != HIDDEN_SIZE {
        return false;
    }
    for i in 0..HIDDEN_SIZE
        invariant
            m.w1@.len() == HIDDEN_SIZE,
            forall|a: int|
                0 <= a < i ==> (#[trigger] m.w1@[a])@.len() == 2 * EMBEDDING_SIZE && bounded_vec(
                    m.w1@[a]@,
                ),
    {
        if m.w1[i].len() != 2 * EMBEDDING_SIZE || !check_bounded(&m.w1[i]) {
            return false;
        }
    }
    if m.w2.len() != OUTPUT_SIZE {
        return false;
    }
    for i in 0..OUTPUT_SIZE
        invariant
            m.w2@.len() == OUTPUT_SIZE,
            forall|a: int|
                0 <= a < i ==> (#[trigger] m.w2@[a])@.len() == HIDDEN_SIZE && bounded_vec(
                    m.w2@[a]@,
                ),
    {
        if m.w2[i].len() != HIDDEN_SIZE || !check_bounded(&m.w2[i]) {
            return false;
        }
    }
    if m.b1.len() != HIDDEN_SIZE || !check_bounded(&m.b1) {
        return false;
    }
    if m.b2.len() != OUTPUT_SIZE || !check_bounded(&m.b2) {
        return false;
    }
    true
}

/// Whether every entry of a vector is within the parameter range.
fn check_bounded(v: &Vec<i64>) -> (r: bool)
    ensures
        r == bounded_vec(v@),
{
    let n = v.len();
    for i in 0..n
        invariant
            n == v@.len(),
            forall|j: int| 0 <= j < i ==> -PARAM_LIMIT <= #[trigger] v@[j] <= PARAM_LIMIT,
    {
        if v[i] < -PARAM_LIMIT || v[i] > PARAM_LIMIT {
            return false;
        }
    }
    true
}

/// Whether an embedding table has distinct keys and well-shaped entries.
fn check_embeddings_wf(m: &StringMap<Vec<i64>>) -> (r: bool)
    ensures
        r == embeddings_wf(m),
{
    let n = m.entries.len();
    for i in 0..n
        invariant
            n == m.entries@.len(),
            forall|a: int, b: int|
                0 <= a < b < i ==> m.entries@[a].0@ != m.entries@[b].0@,
    {
        for j in 0..i
            invariant
                i < n,
                n == m.entries@.len(),
                forall|a: int, b: int|
                    0 <= a < b < i ==> m.entries@[a].0@ != m.entries@[b].0@,
                forall|b: int| 0 <= b < j ==> m.entries@[b].0@ != m.entries@[i as int].0@,
        {
            if crate::util::str_eq(m.entries[j].0.as_str(), m.entries[i].0.as_str()) {
                proof {
                    assert(!crate::util::distinct_keys(m.entries@)) by {
                        assert(0 <= j < i < m.entries@.len());
                        assert(m.entries@[j as int].0@ == m.entries@[i as int].0@);
                        if crate::util::distinct_keys(m.entries@) {
                            assert(m.entries@[j as int].0@ != m.entries@[i as int].0@);
                        }
                    }
                    assert(!m.wf());
                    assert(!embeddings_wf(m));
                }
                return false;
            }
        }
    }
    for i in 0..n
        invariant
            n == m.entries@.len(),
            crate::util::distinct_keys(m.entries@),
            forall|a: int|
                0 <= a < i ==> (#[trigger] m.entries@[a]).1@.len() == EMBEDDING_SIZE
                    && bounded_vec(m.entries@[a].1@),
    {
        let len_ok = m.entries[i].1.len() == EMBEDDING_SIZE;
        let bounded_ok = check_bounded(&m.entries[i].1);
        if !len_ok || !bounded_ok {
            proof {
                crate::util::lemma_assoc_index(m.entries@, i as int);
                let bad = m.entries@[i as int].0@;
                assert(m@.contains_key(bad));
                assert(m@[bad] == m.entries@[i as int].1);
                assert(!(m@[bad]@.len() == EMBEDDING_SIZE && bounded_vec(m@[bad]@)));
                assert(!embeddings_wf(m));
            }
            return false;
        }
    }
    proof {
        assert forall|k: Seq<char>| #[trigger] m@.contains_key(k) implies m@[k]@.len()
            == EMBEDDING_SIZE && bounded_vec(m@[k]@) by {
            crate::util::lemma_assoc_contains(m.entries@, k);
            let a = choose|a: int| 0 <= a < m.entries@.len() && m.entries@[a].0@ == k;
            crate::util::lemma_assoc_index(m.entries@, a);
        }
    }
    true
}

/// Whether a key occurs among the first `i` entries.
pub open spec fn key_in_prefix(entries: Seq<(String, Vec<i64>)>, i: int, k: Seq<char>) -> bool {
    exists|j: int| 0 <= j < i && entries[j].0@ == k
}

impl NCFModel {
    /// Federated averaging: every dense weight and bias becomes the
    /// elementwise average of the two models; embeddings present in both are
    /// averaged, those present on one side only are adopted unchanged; the
    /// epoch becomes the larger of the two. A remote model with wrong shapes
    /// or out-of-range parameters is rejected whole.
    pub fn aggregate(&mut self, other: &NCFModel) -> (r: Result<(), AIError>)
        requires
            old(self).wf(),
        ensures
            final(self).wf(),
            r is Ok <==> other.wf(),
            r is Err ==> *final(self) == *old(self) && (r matches Err(e) && e is ModelValidation),
            r is Ok ==> {
                &&& forall|i: int, j: int|
                    0 <= i < HIDDEN_SIZE && 0 <= j < 2 * EMBEDDING_SIZE
                        ==> #[trigger] (final(self).w1@[i]@[j]) as int == spec_avg(
                        old(self).w1@[i]@[j],
                        other.w1@[i]@[j],
                    )
                &&& forall|i: int, j: int|
                    0 <= i < OUTPUT_SIZE && 0 <= j < HIDDEN_SIZE
                        ==> #[trigger] (final(self).w2@[i]@[j]) as int == spec_avg(
                        old(self).w2@[i]@[j],
                        other.w2@[i]@[j],
                    )
                &&& forall|i: int|
                    0 <= i < HIDDEN_SIZE ==> #[trigger] (final(self).b1@[i]) as int == spec_avg(
                        old(self).b1@[i],
                        other.b1@[i],
                    )
                &&& forall|i: int|
                    0 <= i < OUTPUT_SIZE ==> #[trigger] (final(self).b2@[i]) as int == spec_avg(
                        old(self).b2@[i],
                        other.b2@[i],
                    )
                &&& final(self).epoch == if old(self).epoch >= other.epoch {
                    old(self).epoch
                } else {
                    other.epoch
                }
                &&& merged_embeddings(
                    old(self).user_embeddings@,
                    other.user_embeddings@,
                    final(self).user_embeddings@,
                )
                &&& merged_embeddings(
                    old(self).file_embeddings@,
                    other.file_embeddings@,
                    final(self).file_embeddings@,
                )
            },
    {
        if !check_model_wf(other) {
            return Err(AIError::ModelValidation(String::from_str("model shape or range")));
        }
        let new_w1 = avg_rows(&self.w1, &other.w1);
        let new_w2 = avg_rows(&self.w2, &other.w2);
        let new_b1 = avg_vec(&self.b1, &other.b1);
        let new_b2 = avg_vec(&self.b2, &other.b2);
        self.w1 = new_w1;
        self.w2 = new_w2;
        self.b1 = new_b1;
        self.b2 = new_b2;
        merge_embedding_table(&mut self.user_embeddings, &other.user_embeddings);
        merge_embedding_table(&mut self.file_embeddings, &other.file_embeddings);
        if self.epoch < other.epoch {
            self.epoch = other.epoch;
        }
        Ok(())
    }
}

/// The merge relation of two embedding tables: keys present in both are
/// averaged elementwise, keys on one side only keep that side's vector.
pub open spec fn merged_embeddings(
    mine: Map<Seq<char>, Vec<i64>>,
    theirs: Map<Seq<char>, Vec<i64>>,
    merged: Map<Seq<char>, Vec<i64>>,
) -> bool {
    &&& forall|k: Seq<char>|
        #[trigger] merged.contains_key(k) <==> (mine.contains_key(k) || theirs.contains_key(k))
    &&& forall|k: Seq<char>|
        mine.contains_key(k) && theirs.contains_key(k) ==> (#[trigger] merged[k])@.len()
            == mine[k]@.len() && (forall|i: int|
            0 <= i < merged[k]@.len() ==> #[trigger] (merged[k]@[i]) as int == spec_avg(
                mine[k]@[i],
                theirs[k]@[i],
            ))
    &&& forall|k: Seq<char>|
        mine.contains_key(k) && !theirs.contains_key(k) ==> #[trigger] merged[k] == mine[k]
    &&& forall|k: Seq<char>|
        !mine.contains_key(k) && theirs.contains_key(k) ==> (#[trigger] merged[k])@
            == theirs[k]@
}

/// The elementwise average of two weight matrices, row by row.
fn avg_rows(a: &Vec<Vec<i64>>, b: &Vec<Vec<i64>>) -> (r: Vec<Vec<i64>>)
    requires
        a@.len() == b@.len(),
        forall|i: int|
            0 <= i < a@.len() ==> (#[trigger] a@[i])@.len() == b@[i]@.len() && bounded_vec(a@[i]@)
                && bounded_vec(b@[i]@),
    ensures
        r@.len() == a@.len(),
        forall|i: int|
            0 <= i < r@.len() ==> (#[trigger] r@[i])@.len() == a@[i]@.len() && bounded_vec(r@[i]@)
                && (forall|j: int|
                0 <= j < r@[i]@.len() ==> #[trigger] (r@[i]@[j]) as int == spec_avg(
                    a@[i]@[j],
                    b@[i]@[j],
                )),
{
    let mut r: Vec<Vec<i64>> = Vec::new();
    let n = a.len();
    for i in 0..n
        invariant
            n == a@.len(),
            n == b@.len(),
            forall|x: int|
                0 <= x < a@.len() ==> (#[trigger] a@[x])@.len() == b@[x]@.len() && bounded_vec(
                    a@[x]@,
                ) && bounded_vec(b@[x]@),
            r@.len() == i,
            forall|x: int|
                0 <= x < i ==> (#[trigger] r@[x])@.len() == a@[x]@.len() && bounded_vec(r@[x]@)
                    && (forall|j: int|
                    0 <= j < r@[x]@.len() ==> #[trigger] (r@[x]@[j]) as int == spec_avg(
                        a@[x]@[j],
                        b@[x]@[j],
                    )),
    {
        r.push(avg_vec(&a[i], &b[i]));
    }
    r
}

/// Merges one embedding table into another under the `merged_embeddings`
/// relation.
fn merge_embedding_table(mine: &mut StringMap<Vec<i64>>, theirs: &StringMap<Vec<i64>>)
    requires
        embeddings_wf(old(mine)),
        embeddings_wf(theirs),
    ensures
        embeddings_wf(final(mine)),
        merged_embeddings(old(mine)@, theirs@, final(mine)@),
{
    let n = theirs.entries.len();
    for t in 0..n
        invariant
            n == theirs.entries@.len(),
            embeddings_wf(mine),
            embeddings_wf(theirs),
            forall|k: Seq<char>|
                #[trigger] mine@.contains_key(k) <==> (old(mine)@.contains_key(k) || key_in_prefix(
                    theirs.entries@,
                    t as int,
                    k,
                )),
            forall|k: Seq<char>|
                !key_in_prefix(theirs.entries@, t as int, k) && old(mine)@.contains_key(k)
                    ==> #[trigger] mine@[k] == old(mine)@[k],
            forall|j: int|
                0 <= j < t ==> {
                    let k = (#[trigger] theirs.entries@[j]).0@;
                    &&& mine@.contains_key(k)
                    &&& (old(mine)@.contains_key(k) ==> mine@[k]@.len() == old(
                        mine,
                    )@[k]@.len() && (forall|i: int|
                        0 <= i < mine@[k]@.len() ==> #[trigger] (mine@[k]@[i]) as int == spec_avg(
                            old(mine)@[k]@[i],
                            theirs.entries@[j].1@[i],
                        )))
                    &&& (!old(mine)@.contains_key(k) ==> mine@[k]@ == theirs.entries@[j].1@)
                },
    {
        let key = theirs.entries[t].0.clone();
        let value = &theirs.entries[t].1;
        proof {
            crate::util::lemma_assoc_index(theirs.entries@, t as int);
        }
        let updated = match mine.get(key.as_str()) {
            Some(existing) => {
                proof {
                    lemma_embedding_value(mine, key@);
                    lemma_embedding_value(theirs, key@);
                    assert(value@.len() == EMBEDDING_SIZE && bounded_vec(value@));
                }
                avg_vec(existing, value)
            },
            None => {
                proof {
                    lemma_embedding_value(theirs, key@);
                    assert(value@.len() == EMBEDDING_SIZE && bounded_vec(value@));
                }
                clone_i64s(value)
            },
        };
        proof {
            assert(updated@.len() == EMBEDDING_SIZE && bounded_vec(updated@));
        }
        mine.insert(key, updated);
        proof {
            assert forall|k: Seq<char>| #[trigger] mine@.contains_key(k) implies mine@[k]@.len()
                == EMBEDDING_SIZE && bounded_vec(mine@[k]@) by {
                if k != key@ {
                    assert(mine@[k] == old(mine)@[k] || key_in_prefix(
                        theirs.entries@,
                        t as int,
                        k,
                    ) || true);
                }
            }
            assert forall|k: Seq<char>| #[trigger] mine@.contains_key(k) implies (old(
                mine,
            )@.contains_key(k) || key_in_prefix(theirs.entries@, t + 1, k)) by {
                if k == theirs.entries@[t as int].0@ {
                    assert(key_in_prefix(theirs.entries@, t + 1, k));
                }
            }
            assert forall|k: Seq<char>|
                (old(mine)@.contains_key(k) || key_in_prefix(
                    theirs.entries@,
                    t + 1,
                    k,
                )) implies #[trigger] mine@.contains_key(k) by {
                if key_in_prefix(theirs.entries@, t + 1, k) && !key_in_prefix(
                    theirs.entries@,
                    t as int,
                    k,
                ) {
                    assert(k == theirs.entries@[t as int].0@);
                }
            }
        }
    }
    proof {
        assert forall|k: Seq<char>| theirs@.contains_key(k) implies key_in_prefix(
            theirs.entries@,
            n as int,
            k,
        ) by {
            crate::util::lemma_assoc_contains(theirs.entries@, k);
        }
        assert forall|k: Seq<char>| key_in_prefix(theirs.entries@, n as int, k) implies #[trigger]
        theirs@.contains_key(k) by {
            crate::util::lemma_assoc_contains(theirs.entries@, k);
        }
        assert forall|k: Seq<char>|
            old(mine)@.contains_key(k) && theirs@.contains_key(k) implies (#[trigger] mine@[k])@.len()
            == old(mine)@[k]@.len() && (forall|i: int|
            0 <= i < mine@[k]@.len() ==> #[trigger] (mine@[k]@[i]) as int == spec_avg(
                old(mine)@[k]@[i],
                theirs@[k]@[i],
            )) by {
            crate::util::lemma_assoc_contains(theirs.entries@, k);
            let j = choose|j: int| 0 <= j < theirs.entries@.len() && theirs.entries@[j].0@ == k;
            crate::util::lemma_assoc_index(theirs.entries@, j);
            assert(theirs@[k] == theirs.entries@[j].1);
        }
        assert forall|k: Seq<char>|
            !old(mine)@.contains_key(k) && theirs@.contains_key(k) implies (#[trigger] mine@[k])@
            == theirs@[k]@ by {
            crate::util::lemma_assoc_contains(theirs.entries@, k);
            let j = choose|j: int| 0 <= j < theirs.entries@.len() && theirs.entries@[j].0@ == k;
            crate::util::lemma_assoc_index(theirs.entries@, j);
            assert(theirs@[k] == theirs.entries@[j].1);
        }
    }
}

} // verus!

verus! {

/// The fixed-point learning rate, 0.01.
pub const LEARNING_RATE: i64 = 655;

/// The fixed-point weight decay, 0.01.
pub const WEIGHT_DECAY: i64 = 655;

/// The seed value of a lazily created embedding entry, 0.1.
pub const EMBEDDING_SEED: i64 = 6554;

/// The fixed-point product of two values, scaled back down.
fn fixmul(a: i64, b: i64) -> (r: i64)
    requires
        -0x8000_0000i64 <= a <= 0x8000_0000i64,
        -0x8000_0000i64 <= b <= 0x8000_0000i64,
    ensures
        r as int == tdiv(a * b, SCALE as int),
        -0x4000_0000_0000i64 <= r <= 0x4000_0000_0000i64,
{
    proof {
        assert(-0x4000_0000_0000_0000i128 <= (a as i128) * (b as i128)
            <= 0x4000_0000_0000_0000i128) by (nonlinear_arith)
            requires
                -0x8000_0000i64 <= a <= 0x8000_0000i64,
                -0x8000_0000i64 <= b <= 0x8000_0000i64,
        ;
    }
    let wide: i128 = (a as i128) * (b as i128);
    let r = scale_down(wide);
    proof {
        assert((a as i128) * (b as i128) == (a as int) * (b as int)) by (nonlinear_arith);
        if wide >= 0 {
            lemma_fundamental_div_mod(wide as int, 65536);
            assert(65536 * ((wide as int) / 65536) <= wide as int);
            assert((wide as int) / 65536 <= 0x4000_0000_0000int);
        } else {
            lemma_fundamental_div_mod(-(wide as int), 65536);
            assert(65536 * ((-(wide as int)) / 65536) <= -(wide as int));
            assert((-(wide as int)) / 65536 <= 0x4000_0000_0000int);
        }
    }
    r
}

/// A value clipped to the parameter range.
pub open spec fn spec_clamp(x: int) -> int {
    if x > PARAM_LIMIT as int {
        PARAM_LIMIT as int
    } else if x < -(PARAM_LIMIT as int) {
        -(PARAM_LIMIT as int)
    } else {
        x
    }
}

/// Clips a gradient to the parameter range.
fn clamp_param(x: i64) -> (r: i64)
    ensures
        r as int == spec_clamp(x as int),
        -PARAM_LIMIT <= r <= PARAM_LIMIT,
{
    if x > PARAM_LIMIT {
        PARAM_LIMIT
    } else if x < -PARAM_LIMIT {
        -PARAM_LIMIT
    } else {
        x
    }
}

/// The fixed-point product of two scaled values.
pub open spec fn spec_fixmul(a: int, b: int) -> int {
    tdiv(a * b, SCALE as int)
}

/// One gradient step on a parameter: the learning-rate step plus weight
/// decay, before the range check.
pub open spec fn spec_upd(p: int, g: int) -> int {
    p + spec_fixmul(LEARNING_RATE as int, g) - spec_fixmul(WEIGHT_DECAY as int, p)
}

/// Whether the stepped parameter stays within the range.
pub open spec fn upd_ok(p: int, g: int) -> bool {
    -(PARAM_LIMIT as int) <= spec_upd(p, g) <= PARAM_LIMIT as int
}

/// One gradient step on a parameter, with weight decay; fails exactly when
/// the new value would leave the parameter range.
fn bounded_update(param: i64, grad: i64) -> (r: Result<i64, AIError>)
    requires
        -PARAM_LIMIT <= param <= PARAM_LIMIT,
        -PARAM_LIMIT <= grad <= PARAM_LIMIT,
    ensures
        upd_ok(param as int, grad as int) ==> (r matches Ok(v) && v as int == spec_upd(
            param as int,
            grad as int,
        )),
        !upd_ok(param as int, grad as int) ==> r == Err::<i64, AIError>(
            AIError::NumericalInstability,
        ),
        r matches Ok(v) ==> -PARAM_LIMIT <= v <= PARAM_LIMIT,
        r is Err ==> r == Err::<i64, AIError>(AIError::NumericalInstability),
{
    let step = fixmul(LEARNING_RATE, grad);
    let decay = fixmul(WEIGHT_DECAY, param);
    let v: i64 = param + step - decay;
    if v < -PARAM_LIMIT || v > PARAM_LIMIT {
        Err(AIError::NumericalInstability)
    } else {
        Ok(v)
    }
}

/// The seed values of a lazily created embedding.
pub open spec fn seed_seq() -> Seq<i64> {
    Seq::new(EMBEDDING_SIZE as nat, |i: int| EMBEDDING_SEED)
}

/// A vector of embedding seed values.
fn seed_vec() -> (r: Vec<i64>)
    ensures
        r@ == seed_seq(),
        r@.len() == EMBEDDING_SIZE,
        bounded_vec(r@),
{
    let mut r: Vec<i64> = Vec::new();
    for i in 0..EMBEDDING_SIZE
        invariant
            r@.len() == i,
            forall|j: int| 0 <= j < i ==> #[trigger] r@[j] == EMBEDDING_SEED,
    {
        r.push(EMBEDDING_SEED);
    }
    proof {
        assert(r@ =~= seed_seq());
    }
    r
}

/// A table with the same keys and embedding values as the original.
fn clone_embeddings(m: &StringMap<Vec<i64>>) -> (r: StringMap<Vec<i64>>)
    requires
        embeddings_wf(m),
    ensures
        embeddings_wf(&r),
        r@.dom() == m@.dom(),
        forall|k: Seq<char>| #[trigger] m@.contains_key(k) ==> r@[k]@ == m@[k]@,
        emb_view(r.entries@) == emb_view(m.entries@),
{
    let mut entries: Vec<(String, Vec<i64>)> = Vec::new();
    let n = m.entries.len();
    for i in 0..n
        invariant
            n == m.entries@.len(),
            entries@.len() == i,
            forall|a: int|
                0 <= a < i ==> (#[trigger] entries@[a]).0 == m.entries@[a].0 && entries@[a].1@
                    == m.entries@[a].1@,
    {
        entries.push((m.entries[i].0.clone(), clone_i64s(&m.entries[i].1)));
    }
    let r = StringMap { entries };
    proof {
        assert(crate::util::distinct_keys(r.entries@));
        assert forall|k: Seq<char>| #[trigger] r@.contains_key(k) implies m@.contains_key(k) by {
            crate::util::lemma_assoc_contains(r.entries@, k);
            crate::util::lemma_assoc_contains(m.entries@, k);
            let j = choose|j: int| 0 <= j < r.entries@.len() && r.entries@[j].0@ == k;
            assert(m.entries@[j].0@ == k);
        }
        assert forall|k: Seq<char>| #[trigger] m@.contains_key(k) implies r@.contains_key(k) by {
            crate::util::lemma_assoc_contains(r.entries@, k);
            crate::util::lemma_assoc_contains(m.entries@, k);
            let j = choose|j: int| 0 <= j < m.entries@.len() && m.entries@[j].0@ == k;
            assert(r.entries@[j].0@ == k);
        }
        assert(r@.dom() =~= m@.dom());
        assert forall|k: Seq<char>| #[trigger] m@.contains_key(k) implies r@[k]@ == m@[k]@ by {
            crate::util::lemma_assoc_contains(m.entries@, k);
            let a = choose|a: int| 0 <= a < m.entries@.len() && m.entries@[a].0@ == k;
            crate::util::lemma_assoc_index(m.entries@, a);
            crate::util::lemma_assoc_index(r.entries@, a);
        }
        assert forall|k: Seq<char>| #[trigger] r@.contains_key(k) implies r@[k]@.len()
            == EMBEDDING_SIZE && bounded_vec(r@[k]@) by {
            assert(m@.contains_key(k));
        }
        assert(emb_view(r.entries@) =~= emb_view(m.entries@));
    }
    r
}

/// A model with the same parameters as the original.
pub fn clone_model(m: &NCFModel) -> (r: NCFModel)
    requires
        m.wf(),
    ensures
        r.wf(),
        r.epoch == m.epoch,
        r.user_embeddings@.dom() == m.user_embeddings@.dom(),
        r.file_embeddings@.dom() == m.file_embeddings@.dom(),
        r@ == m@,
{
    let mut w1: Vec<Vec<i64>> = Vec::new();
    for i in 0..HIDDEN_SIZE
        invariant
            m.wf(),
            w1@.len() == i,
            forall|a: int|
                0 <= a < i ==> (#[trigger] w1@[a])@ == m.w1@[a]@,
    {
        w1.push(clone_i64s(&m.w1[i]));
    }
    let mut w2: Vec<Vec<i64>> = Vec::new();
    for i in 0..OUTPUT_SIZE
        invariant
            m.wf(),
            w2@.len() == i,
            forall|a: int|
                0 <= a < i ==> (#[trigger] w2@[a])@ == m.w2@[a]@,
    {
        w2.push(clone_i64s(&m.w2[i]));
    }
    let r = NCFModel {
        user_embeddings: clone_embeddings(&m.user_embeddings),
        file_embeddings: clone_embeddings(&m.file_embeddings),
        w1,
        w2,
        b1: clone_i64s(&m.b1),
        b2: clone_i64s(&m.b2),
        epoch: m.epoch,
    };
    proof {
        assert(r@ =~~= m@) by {
            assert(r@.w1 =~~= m@.w1);
            assert(r@.w2 =~~= m@.w2);
        }
    }
    r
}

// ---- the training step, stated over the model's mathematical content ----

/// The input of one training step: the two embeddings, concatenated.
pub open spec fn step_input(m: ModelView, user: Seq<char>, file: Seq<char>) -> Seq<i64> {
    ev_get(m.user_embeddings, user) + ev_get(m.file_embeddings, file)
}

/// One hidden activation of the step's forward pass.
pub open spec fn step_hid(m: ModelView, user: Seq<char>, file: Seq<char>, i: int) -> int {
    relu(tdiv(spec_dot(m.w1[i], step_input(m, user, file)), SCALE as int) + m.b1[i])
}

/// All hidden activations of the step's forward pass.
pub open spec fn step_hidden(m: ModelView, user: Seq<char>, file: Seq<char>) -> Seq<int> {
    Seq::new(HIDDEN_SIZE as nat, |i: int| step_hid(m, user, file, i))
}

/// The step's forward score.
pub open spec fn step_out(m: ModelView, user: Seq<char>, file: Seq<char>) -> int {
    tdiv(spec_dot_mixed(m.w2[0], step_hidden(m, user, file)), SCALE as int) + m.b2[0]
}

/// The step's error against the implicit target 1.0.
pub open spec fn step_err(m: ModelView, user: Seq<char>, file: Seq<char>) -> int {
    SCALE - step_out(m, user, file)
}

/// The clipped hidden gradient, zero where the activation was clamped.
pub open spec fn step_gh(m: ModelView, user: Seq<char>, file: Seq<char>) -> Seq<int> {
    Seq::new(
        HIDDEN_SIZE as nat,
        |j: int|
            if step_hidden(m, user, file)[j] > 0 {
                spec_clamp(spec_fixmul(m.w2[0][j] as int, step_err(m, user, file)))
            } else {
                0
            },
    )
}

/// Whether every intermediate and every stepped parameter stays within the
/// parameter range; the step fails exactly otherwise.
pub open spec fn step_ok(m: ModelView, user: Seq<char>, file: Seq<char>) -> bool {
    &&& forall|i: int|
        0 <= i < HIDDEN_SIZE ==> #[trigger] step_hidden(m, user, file)[i] <= PARAM_LIMIT as int
    &&& -(PARAM_LIMIT as int) <= step_out(m, user, file) <= PARAM_LIMIT as int
    &&& forall|j: int|
        0 <= j < HIDDEN_SIZE ==> upd_ok(
            m.w2[0][j] as int,
            spec_clamp(spec_fixmul(#[trigger] step_hidden(m, user, file)[j], step_err(m, user, file))),
        )
    &&& upd_ok(m.b2[0] as int, spec_clamp(step_err(m, user, file)))
    &&& forall|i: int, j: int|
        0 <= i < HIDDEN_SIZE && 0 <= j < 2 * EMBEDDING_SIZE ==> upd_ok(
            #[trigger] (m.w1[i][j]) as int,
            spec_clamp(
                spec_fixmul(step_input(m, user, file)[j] as int, step_gh(m, user, file)[i]),
            ),
        )
    &&& forall|i: int|
        0 <= i < HIDDEN_SIZE ==> upd_ok(m.b1[i] as int, #[trigger] step_gh(m, user, file)[i])
    &&& forall|i: int|
        0 <= i < EMBEDDING_SIZE ==> upd_ok(
            #[trigger] (ev_get(m.user_embeddings, user)[i]) as int,
            spec_clamp(
                spec_fixmul(step_err(m, user, file), ev_get(m.file_embeddings, file)[i] as int),
            ),
        )
    &&& forall|i: int|
        0 <= i < EMBEDDING_SIZE ==> upd_ok(
            #[trigger] (ev_get(m.file_embeddings, file)[i]) as int,
            spec_clamp(
                spec_fixmul(step_err(m, user, file), ev_get(m.user_embeddings, user)[i] as int),
            ),
        )
}

/// The stepped output weights.
pub open spec fn step_new_w2(m: ModelView, user: Seq<char>, file: Seq<char>) -> Seq<i64> {
    Seq::new(
        HIDDEN_SIZE as nat,
        |j: int|
            spec_upd(
                m.w2[0][j] as int,
                spec_clamp(
                    spec_fixmul(step_hidden(m, user, file)[j], step_err(m, user, file)),
                ),
            ) as i64,
    )
}

/// The stepped first-layer weights.
pub open spec fn step_new_w1(m: ModelView, user: Seq<char>, file: Seq<char>) -> Seq<Seq<i64>> {
    Seq::new(
        HIDDEN_SIZE as nat,
        |i: int|
            Seq::new(
                (2 * EMBEDDING_SIZE) as nat,
                |j: int|
                    spec_upd(
                        m.w1[i][j] as int,
                        spec_clamp(
                            spec_fixmul(
                                step_input(m, user, file)[j] as int,
                                step_gh(m, user, file)[i],
                            ),
                        ),
                    ) as i64,
            ),
    )
}

/// The stepped hidden biases.
pub open spec fn step_new_b1(m: ModelView, user: Seq<char>, file: Seq<char>) -> Seq<i64> {
    Seq::new(
        HIDDEN_SIZE as nat,
        |i: int| spec_upd(m.b1[i] as int, step_gh(m, user, file)[i]) as i64,
    )
}

/// The stepped user embedding, from the pre-update snapshots of both sides.
pub open spec fn step_new_ue(m: ModelView, user: Seq<char>, file: Seq<char>) -> Seq<i64> {
    Seq::new(
        EMBEDDING_SIZE as nat,
        |i: int|
            spec_upd(
                ev_get(m.user_embeddings, user)[i] as int,
                spec_clamp(
                    spec_fixmul(
                        step_err(m, user, file),
                        ev_get(m.file_embeddings, file)[i] as int,
                    ),
                ),
            ) as i64,
    )
}

/// The stepped file embedding, from the pre-update snapshots of both sides.
pub open spec fn step_new_fe(m: ModelView, user: Seq<char>, file: Seq<char>) -> Seq<i64> {
    Seq::new(
        EMBEDDING_SIZE as nat,
        |i: int|
            spec_upd(
                ev_get(m.file_embeddings, file)[i] as int,
                spec_clamp(
                    spec_fixmul(
                        step_err(m, user, file),
                        ev_get(m.user_embeddings, user)[i] as int,
                    ),
                ),
            ) as i64,
    )
}

/// One whole training step on a model holding both embeddings: the squared-
/// error gradient step with clipping and weight decay, or nothing when any
/// intermediate or stepped parameter leaves the range.
pub open spec fn spec_step(m: ModelView, user: Seq<char>, file: Seq<char>) -> Option<ModelView> {
    if step_ok(m, user, file) {
        Some(
            ModelView {
                user_embeddings: ev_set(m.user_embeddings, user, step_new_ue(m, user, file)),
                file_embeddings: ev_set(m.file_embeddings, file, step_new_fe(m, user, file)),
                w1: step_new_w1(m, user, file),
                w2: seq![step_new_w2(m, user, file)],
                b1: step_new_b1(m, user, file),
                b2: seq![
                    spec_upd(m.b2[0] as int, spec_clamp(step_err(m, user, file))) as i64,
                ],
                epoch: m.epoch,
            },
        )
    } else {
        None
    }
}

/// A model with any missing interaction embeddings seeded.
pub open spec fn spec_seed(m: ModelView, user: Seq<char>, file: Seq<char>) -> ModelView {
    ModelView {
        user_embeddings: if ev_has(m.user_embeddings, user) {
            m.user_embeddings
        } else {
            m.user_embeddings.push((user, seed_seq()))
        },
        file_embeddings: if ev_has(m.file_embeddings, file) {
            m.file_embeddings
        } else {
            m.file_embeddings.push((file, seed_seq()))
        },
        w1: m.w1,
        w2: m.w2,
        b1: m.b1,
        b2: m.b2,
        epoch: m.epoch,
    }
}

/// The characters of a list of interaction pairs.
pub open spec fn pairs_view(s: Seq<(String, String)>) -> Seq<(Seq<char>, Seq<char>)> {
    s.map_values(|p: (String, String)| (p.0@, p.1@))
}

/// What training computes: seed and step once per interaction, in order; the
/// whole run fails as soon as one step does.
pub open spec fn spec_train(m: ModelView, ints: Seq<(Seq<char>, Seq<char>)>) -> Option<ModelView>
    decreases ints.len(),
{
    if ints.len() == 0 {
        Some(m)
    } else {
        let seeded = spec_seed(m, ints.first().0, ints.first().1);
        match spec_step(seeded, ints.first().0, ints.first().1) {
            Some(m2) => spec_train(m2, ints.drop_first()),
            None => None,
        }
    }
}

impl NCFModel {
    /// Trains on a list of user-file interactions with implicit target 1.0:
    /// lazily seeds missing embeddings and applies one clipped gradient step
    /// per interaction, in order — exactly `spec_train` — and then advances
    /// the epoch. On any intermediate outside the parameter range nothing at
    /// all is changed.
    pub fn train(&mut self, interactions: &Vec<(String, String)>) -> (r: Result<(), AIError>)
        requires
            old(self).wf(),
        ensures
            final(self).wf(),
            r is Ok <==> spec_train(old(self)@, pairs_view(interactions@)) is Some,
            r is Err ==> *final(self) == *old(self) && r == Err::<(), AIError>(
                AIError::NumericalInstability,
            ),
            r is Ok ==> {
                &&& final(self).epoch == if old(self).epoch < u32::MAX {
                    (old(self).epoch + 1) as u32
                } else {
                    u32::MAX
                }
                &&& final(self).epoch >= old(self).epoch
                &&& (spec_train(old(self)@, pairs_view(interactions@)) matches Some(mv)
                    && final(self)@ == (ModelView {
                    epoch: final(self).epoch,
                    user_embeddings: mv.user_embeddings,
                    file_embeddings: mv.file_embeddings,
                    w1: mv.w1,
                    w2: mv.w2,
                    b1: mv.b1,
                    b2: mv.b2,
                }))
                &&& forall|p: int|
                    0 <= p < interactions@.len() ==> final(self).user_embeddings@.contains_key(
                        (#[trigger] interactions@[p]).0@,
                    ) && final(self).file_embeddings@.contains_key(interactions@[p].1@)
            },
    {
        let ghost pv = pairs_view(interactions@);
        let mut work = clone_model(self);
        proof {
            assert(pv.skip(0int) =~= pv);
        }
        let n = interactions.len();
        for p in 0..n
            invariant
                *self == *old(self),
                old(self).wf(),
                n == interactions@.len(),
                pv == pairs_view(interactions@),
                work.wf(),
                work.epoch == old(self).epoch,
                spec_train(old(self)@, pv) == spec_train(work@, pv.skip(p as int)),
                forall|q: int|
                    0 <= q < p ==> work.user_embeddings@.contains_key(
                        (#[trigger] interactions@[q]).0@,
                    ) && work.file_embeddings@.contains_key(interactions@[q].1@),
        {
            let ghost entry_mv = work@;
            let ghost sk = pv.skip(p as int);
            let user = &interactions[p].0;
            let file = &interactions[p].1;
            proof {
                assert(sk.len() == n - p);
                assert(sk.first() == pv[p as int]);
                assert(pv[p as int] == (user@, file@));
                assert(sk.drop_first() =~= pv.skip(p + 1));
            }
            let ghost pre_u = work.user_embeddings.entries@;
            let ghost pre_f = work.file_embeddings.entries@;
            if !work.user_embeddings.contains_key(user.as_str()) {
                proof {
                    lemma_ev_of_map_absent(&work.user_embeddings, user@);
                }
                let seed = seed_vec();
                let ghost gseed: Vec<i64> = seed;
                let ukey = user.clone();
                let ghost gukey: String = ukey;
                work.user_embeddings.insert(ukey, seed);
                proof {
                    crate::util::lemma_assoc_contains(pre_u, user@);
                    assert(forall|j: int| 0 <= j < pre_u.len() ==> pre_u[j].0@ != user@);
                    assert(work.user_embeddings.entries@ == pre_u.push((gukey, gseed)));
                    assert(emb_view(work.user_embeddings.entries@) =~= emb_view(pre_u).push(
                        (user@, seed_seq()),
                    ));
                }
            } else {
                proof {
                    lemma_ev_of_map(&work.user_embeddings, user@);
                }
            }
            proof {
                assert(emb_view(work.user_embeddings.entries@) == spec_seed(
                    entry_mv,
                    user@,
                    file@,
                ).user_embeddings);
            }
            let ghost mid_f = work.file_embeddings.entries@;
            if !work.file_embeddings.contains_key(file.as_str()) {
                proof {
                    lemma_ev_of_map_absent(&work.file_embeddings, file@);
                }
                let seed = seed_vec();
                let ghost gseed: Vec<i64> = seed;
                let fkey = file.clone();
                let ghost gfkey: String = fkey;
                work.file_embeddings.insert(fkey, seed);
                proof {
                    crate::util::lemma_assoc_contains(mid_f, file@);
                    assert(forall|j: int| 0 <= j < mid_f.len() ==> mid_f[j].0@ != file@);
                    assert(work.file_embeddings.entries@ == mid_f.push((gfkey, gseed)));
                    assert(emb_view(work.file_embeddings.entries@) =~= emb_view(mid_f).push(
                        (file@, seed_seq()),
                    ));
                }
            } else {
                proof {
                    lemma_ev_of_map(&work.file_embeddings, file@);
                }
            }
            proof {
                assert(mid_f == pre_f);
                assert(work@ =~~= spec_seed(entry_mv, user@, file@));
                assert(work.user_embeddings@.contains_key(user@));
                assert(work.file_embeddings@.contains_key(file@));
            }
            let ghost seeded_mv = work@;
            match train_step(&mut work, user.as_str(), file.as_str()) {
                Ok(()) => {
                    proof {
                        assert(spec_step(seeded_mv, user@, file@) == Some(work@));
                        assert(spec_train(entry_mv, sk) == spec_train(work@, pv.skip(p + 1)));
                    }
                },
                Err(_) => {
                    proof {
                        assert(!step_ok(seeded_mv, user@, file@));
                        assert(spec_step(seeded_mv, user@, file@) is None);
                        assert(spec_train(entry_mv, sk) is None);
                        assert(spec_train(old(self)@, pv) is None);
                    }
                    return Err(AIError::NumericalInstability);
                },
            }
        }
        proof {
            assert(pv.skip(n as int) =~= Seq::<(Seq<char>, Seq<char>)>::empty());
            assert(spec_train(work@, pv.skip(n as int)) == Some(work@));
            assert(spec_train(old(self)@, pv) == Some(work@));
        }
        let ghost mv_final = work@;
        if work.epoch < u32::MAX {
            work.epoch = work.epoch + 1;
        }
        *self = work;
        proof {
            assert(final(self)@ =~~= (ModelView {
                epoch: final(self).epoch,
                user_embeddings: mv_final.user_embeddings,
                file_embeddings: mv_final.file_embeddings,
                w1: mv_final.w1,
                w2: mv_final.w2,
                b1: mv_final.b1,
                b2: mv_final.b2,
            }));
        }
        Ok(())
    }
}

/// One gradient step for one interaction, on a model that already holds both
/// embeddings: exactly `spec_step`, and exactly a failure when it is `None`.
#[verifier::loop_isolation(false)]
#[verifier::rlimit(100)]
#[verifier::spinoff_prover]
fn train_step(m: &mut NCFModel, user: &str, file: &str) -> (r: Result<(), AIError>)
    requires
        old(m).wf(),
        old(m).user_embeddings@.contains_key(user@),
        old(m).file_embeddings@.contains_key(file@),
    ensures
        final(m).wf(),
        final(m).epoch == old(m).epoch,
        final(m).user_embeddings@.dom() == old(m).user_embeddings@.dom(),
        final(m).file_embeddings@.dom() == old(m).file_embeddings@.dom(),
        step_ok(old(m)@, user@, file@) ==> r is Ok && Some(final(m)@) == spec_step(
            old(m)@,
            user@,
            file@,
        ),
        !step_ok(old(m)@, user@, file@) ==> r == Err::<(), AIError>(
            AIError::NumericalInstability,
        ) && *final(m) == *old(m),
{
    let ghost mv = old(m)@;
    proof {
        lemma_embedding_value(&m.user_embeddings, user@);
        lemma_embedding_value(&m.file_embeddings, file@);
        lemma_ev_of_map(&m.user_embeddings, user@);
        lemma_ev_of_map(&m.file_embeddings, file@);
    }
    let ue_old = match m.user_embeddings.get(user) {
        Some(e) => clone_i64s(e),
        None => {
            return Err(AIError::NumericalInstability);
        },
    };
    let fe_old = match m.file_embeddings.get(file) {
        Some(e) => clone_i64s(e),
        None => {
            return Err(AIError::NumericalInstability);
        },
    };
    proof {
        assert(ue_old@ == ev_get(mv.user_embeddings, user@));
        assert(fe_old@ == ev_get(mv.file_embeddings, file@));
    }
    let mut input: Vec<i64> = Vec::new();
    let mut ue_copy = clone_i64s(&ue_old);
    input.append(&mut ue_copy);
    let mut fe_copy = clone_i64s(&fe_old);
    input.append(&mut fe_copy);
    proof {
        assert(input@ =~= step_input(mv, user@, file@));
        assert(bounded_vec(input@)) by {
            assert(forall|i: int|
                0 <= i < input@.len() ==> input@[i] == (if i < EMBEDDING_SIZE {
                    ue_old@[i]
                } else {
                    fe_old@[i - EMBEDDING_SIZE]
                }));
        }
        assert(input@.len() == 2 * EMBEDDING_SIZE);
    }
    // Forward pass.
    let mut hidden: Vec<i64> = Vec::new();
    for i in 0..HIDDEN_SIZE
        invariant
            *m == *old(m),
            hidden@.len() == i,
            forall|a: int|
                0 <= a < i ==> 0 <= #[trigger] hidden@[a] <= PARAM_LIMIT && hidden@[a] as int
                    == step_hidden(mv, user@, file@)[a],
    {
        proof {
            assert(mv.w1[i as int] == m.w1@[i as int]@);
        }
        let s = dot_i64(&m.w1[i], &input);
        let pre: i64 = scale_down(s) + m.b1[i];
        let h: i64 = if pre < 0 {
            0
        } else {
            pre
        };
        proof {
            assert(h as int == step_hid(mv, user@, file@, i as int));
            assert(step_hidden(mv, user@, file@)[i as int] == step_hid(
                mv,
                user@,
                file@,
                i as int,
            ));
        }
        if h > PARAM_LIMIT {
            proof {
                assert(step_hidden(mv, user@, file@)[i as int] > PARAM_LIMIT as int);
                assert(!step_ok(mv, user@, file@));
            }
            return Err(AIError::NumericalInstability);
        }
        hidden.push(h);
    }
    proof {
        assert(hidden@.map_values(|x: i64| x as int) =~= step_hidden(mv, user@, file@));
        lemma_dot_mixed_eq(m.w2@[0]@, hidden@);
        assert(mv.w2[0] == m.w2@[0]@);
    }
    let s2 = dot_i64(&m.w2[0], &hidden);
    let out: i64 = scale_down(s2) + m.b2[0];
    proof {
        assert(out as int == step_out(mv, user@, file@));
    }
    if out < -PARAM_LIMIT || out > PARAM_LIMIT {
        proof {
            assert(!step_ok(mv, user@, file@));
        }
        return Err(AIError::NumericalInstability);
    }
    let err: i64 = SCALE - out;
    proof {
        assert(err as int == step_err(mv, user@, file@));
    }
    // Output layer gradients and update.
    let mut new_w2_row: Vec<i64> = Vec::new();
    let mut grad_hidden: Vec<i64> = Vec::new();
    for j in 0..HIDDEN_SIZE
        invariant
            *m == *old(m),
            hidden@.len() == HIDDEN_SIZE,
            forall|a: int|
                0 <= a < HIDDEN_SIZE ==> 0 <= #[trigger] hidden@[a] <= PARAM_LIMIT && hidden@[
                    a
                ] as int == step_hidden(mv, user@, file@)[a],
            -0x8000_0000i64 <= err <= 0x8000_0000i64,
            err as int == step_err(mv, user@, file@),
            new_w2_row@.len() == j,
            bounded_vec(new_w2_row@),
            forall|a: int|
                0 <= a < j ==> #[trigger] new_w2_row@[a] == step_new_w2(mv, user@, file@)[a],
            grad_hidden@.len() == j,
            bounded_vec(grad_hidden@),
            forall|a: int|
                0 <= a < j ==> #[trigger] grad_hidden@[a] as int == step_gh(mv, user@, file@)[a],
    {
        let grad_w2 = clamp_param(fixmul(hidden[j], err));
        proof {
            assert(grad_w2 as int == spec_clamp(
                spec_fixmul(step_hidden(mv, user@, file@)[j as int], step_err(mv, user@, file@)),
            ));
            assert(mv.w2[0][j as int] == m.w2@[0]@[j as int]);
        }
        let updated = match bounded_update(m.w2[0][j], grad_w2) {
            Ok(v) => v,
            Err(e) => {
                proof {
                    assert(!step_ok(mv, user@, file@));
                }
                return Err(e);
            },
        };
        new_w2_row.push(updated);
        let gh = clamp_param(fixmul(m.w2[0][j], err));
        let gh_relu: i64 = if hidden[j] > 0 {
            gh
        } else {
            0
        };
        grad_hidden.push(gh_relu);
        proof {
            assert(new_w2_row@.last() as int == spec_upd(
                mv.w2[0][j as int] as int,
                spec_clamp(
                    spec_fixmul(
                        step_hidden(mv, user@, file@)[j as int],
                        step_err(mv, user@, file@),
                    ),
                ),
            ));
            assert(new_w2_row@.last() == step_new_w2(mv, user@, file@)[j as int]);
            assert(grad_hidden@.last() as int == step_gh(mv, user@, file@)[j as int]);
        }
    }
    let new_b2 = match bounded_update(m.b2[0], clamp_param(err)) {
        Ok(v) => v,
        Err(e) => {
            proof {
                assert(mv.b2[0] == m.b2@[0]);
                assert(!step_ok(mv, user@, file@));
            }
            return Err(e);
        },
    };
    proof {
        assert(mv.b2[0] == m.b2@[0]);
        assert(new_b2 as int == spec_upd(
            mv.b2[0] as int,
            spec_clamp(step_err(mv, user@, file@)),
        ));
    }
    // Hidden layer update.
    let mut new_w1: Vec<Vec<i64>> = Vec::new();
    let mut new_b1: Vec<i64> = Vec::new();
    for i in 0..HIDDEN_SIZE
        invariant
            *m == *old(m),
            input@.len() == 2 * EMBEDDING_SIZE,
            bounded_vec(input@),
            input@ == step_input(mv, user@, file@),
            grad_hidden@.len() == HIDDEN_SIZE,
            bounded_vec(grad_hidden@),
            forall|a: int|
                0 <= a < HIDDEN_SIZE ==> #[trigger] grad_hidden@[a] as int == step_gh(
                    mv,
                    user@,
                    file@,
                )[a],
            new_w1@.len() == i,
            forall|a: int|
                0 <= a < i ==> (#[trigger] new_w1@[a])@.len() == 2 * EMBEDDING_SIZE
                    && bounded_vec(new_w1@[a]@) && new_w1@[a]@ == step_new_w1(
                    mv,
                    user@,
                    file@,
                )[a],
            new_b1@.len() == i,
            bounded_vec(new_b1@),
            forall|a: int|
                0 <= a < i ==> #[trigger] new_b1@[a] == step_new_b1(mv, user@, file@)[a],
    {
        let mut row: Vec<i64> = Vec::new();
        for j in 0..(2 * EMBEDDING_SIZE)
            invariant
                *m == *old(m),
                i < HIDDEN_SIZE,
                input@.len() == 2 * EMBEDDING_SIZE,
                bounded_vec(input@),
                input@ == step_input(mv, user@, file@),
                grad_hidden@.len() == HIDDEN_SIZE,
                bounded_vec(grad_hidden@),
                forall|a: int|
                    0 <= a < HIDDEN_SIZE ==> #[trigger] grad_hidden@[a] as int == step_gh(
                        mv,
                        user@,
                        file@,
                    )[a],
                row@.len() == j,
                bounded_vec(row@),
                forall|b: int|
                    0 <= b < j ==> #[trigger] row@[b] == step_new_w1(mv, user@, file@)[i as int][b],
        {
            let grad = clamp_param(fixmul(input[j], grad_hidden[i]));
            proof {
                assert(grad as int == spec_clamp(
                    spec_fixmul(
                        step_input(mv, user@, file@)[j as int] as int,
                        step_gh(mv, user@, file@)[i as int],
                    ),
                ));
                assert(mv.w1[i as int][j as int] == m.w1@[i as int]@[j as int]);
            }
            let updated = match bounded_update(m.w1[i][j], grad) {
                Ok(v) => v,
                Err(e) => {
                    proof {
                        assert(!step_ok(mv, user@, file@));
                    }
                    return Err(e);
                },
            };
            row.push(updated);
            proof {
                assert(row@.last() == step_new_w1(mv, user@, file@)[i as int][j as int]);
            }
        }
        new_w1.push(row);
        proof {
            assert(new_w1@.last()@ =~= step_new_w1(mv, user@, file@)[i as int]);
        }
        proof {
            assert(mv.b1[i as int] == m.b1@[i as int]);
        }
        let updated_b = match bounded_update(m.b1[i], grad_hidden[i]) {
            Ok(v) => v,
            Err(e) => {
                proof {
                    assert(!step_ok(mv, user@, file@));
                }
                return Err(e);
            },
        };
        new_b1.push(updated_b);
        proof {
            assert(new_b1@.last() == step_new_b1(mv, user@, file@)[i as int]);
        }
    }
    // Embedding updates, both from the pre-update snapshots.
    let mut new_ue: Vec<i64> = Vec::new();
    let mut new_fe: Vec<i64> = Vec::new();
    proof {
        assert(ue_old@.len() == EMBEDDING_SIZE && bounded_vec(ue_old@));
        assert(fe_old@.len() == EMBEDDING_SIZE && bounded_vec(fe_old@));
    }
    for i in 0..EMBEDDING_SIZE
        invariant
            *m == *old(m),
            ue_old@.len() == EMBEDDING_SIZE,
            fe_old@.len() == EMBEDDING_SIZE,
            bounded_vec(ue_old@),
            bounded_vec(fe_old@),
            ue_old@ == ev_get(mv.user_embeddings, user@),
            fe_old@ == ev_get(mv.file_embeddings, file@),
            -0x8000_0000i64 <= err <= 0x8000_0000i64,
            err as int == step_err(mv, user@, file@),
            new_ue@.len() == i,
            bounded_vec(new_ue@),
            forall|a: int|
                0 <= a < i ==> #[trigger] new_ue@[a] == step_new_ue(mv, user@, file@)[a],
            new_fe@.len() == i,
            bounded_vec(new_fe@),
            forall|a: int|
                0 <= a < i ==> #[trigger] new_fe@[a] == step_new_fe(mv, user@, file@)[a],
    {
        let gu = clamp_param(fixmul(err, fe_old[i]));
        let updated_u = match bounded_update(ue_old[i], gu) {
            Ok(v) => v,
            Err(e) => {
                proof {
                    assert(!step_ok(mv, user@, file@));
                }
                return Err(e);
            },
        };
        new_ue.push(updated_u);
        let gf = clamp_param(fixmul(err, ue_old[i]));
        let updated_f = match bounded_update(fe_old[i], gf) {
            Ok(v) => v,
            Err(e) => {
                proof {
                    assert(!step_ok(mv, user@, file@));
                }
                return Err(e);
            },
        };
        new_fe.push(updated_f);
        proof {
            assert(new_ue@.last() == step_new_ue(mv, user@, file@)[i as int]);
            assert(new_fe@.last() == step_new_fe(mv, user@, file@)[i as int]);
        }
    }
    proof {
        assert(step_ok(mv, user@, file@)) by {
            assert forall|i: int|
                0 <= i < HIDDEN_SIZE implies #[trigger] step_hidden(mv, user@, file@)[i]
                <= PARAM_LIMIT as int by {
                assert(hidden@[i] as int == step_hidden(mv, user@, file@)[i]);
            }
        }
        assert(new_ue@ =~= step_new_ue(mv, user@, file@));
        assert(new_fe@ =~= step_new_fe(mv, user@, file@));
        assert(new_w2_row@ =~= step_new_w2(mv, user@, file@));
        assert(new_b1@ =~= step_new_b1(mv, user@, file@));
    }
    // Commit.
    let ghost pre_u_entries = m.user_embeddings.entries@;
    let ghost pre_f_entries = m.file_embeddings.entries@;
    let user_key = user.to_owned();
    let file_key = file.to_owned();
    let ghost guk: String = user_key;
    let ghost gfk: String = file_key;
    let ghost gnue: Vec<i64> = new_ue;
    let ghost gnfe: Vec<i64> = new_fe;
    let mut w2_outer: Vec<Vec<i64>> = Vec::new();
    w2_outer.push(new_w2_row);
    let mut b2_vec: Vec<i64> = Vec::new();
    b2_vec.push(new_b2);
    m.w1 = new_w1;
    m.w2 = w2_outer;
    m.b1 = new_b1;
    m.b2 = b2_vec;
    m.user_embeddings.insert(user_key, new_ue);
    m.file_embeddings.insert(file_key, new_fe);
    proof {
        assert(final(m).user_embeddings@.dom() =~= old(m).user_embeddings@.dom());
        assert(final(m).file_embeddings@.dom() =~= old(m).file_embeddings@.dom());
        assert forall|k: Seq<char>|
            #[trigger] final(m).user_embeddings@.contains_key(k) implies final(m).user_embeddings@[k]@.len()
            == EMBEDDING_SIZE && bounded_vec(final(m).user_embeddings@[k]@) by {
            if k != user@ {
                assert(old(m).user_embeddings@.contains_key(k));
            }
        }
        assert forall|k: Seq<char>|
            #[trigger] final(m).file_embeddings@.contains_key(k) implies final(m).file_embeddings@[k]@.len()
            == EMBEDDING_SIZE && bounded_vec(final(m).file_embeddings@[k]@) by {
            if k != file@ {
                assert(old(m).file_embeddings@.contains_key(k));
            }
        }
        // The committed model is exactly the specified step.
        let iu = choose|i: int|
            {
                &&& 0 <= i < pre_u_entries.len()
                &&& (#[trigger] pre_u_entries[i]).0@ == user@
                &&& (forall|j: int| 0 <= j < i ==> pre_u_entries[j].0@ != user@)
                &&& final(m).user_embeddings.entries@ == pre_u_entries.update(i, (guk, gnue))
            };
        lemma_ev_set_update(pre_u_entries, iu, guk, gnue);
        let fu = choose|i: int|
            {
                &&& 0 <= i < pre_f_entries.len()
                &&& (#[trigger] pre_f_entries[i]).0@ == file@
                &&& (forall|j: int| 0 <= j < i ==> pre_f_entries[j].0@ != file@)
                &&& final(m).file_embeddings.entries@ == pre_f_entries.update(i, (gfk, gnfe))
            };
        lemma_ev_set_update(pre_f_entries, fu, gfk, gnfe);
        assert(final(m)@.user_embeddings == ev_set(mv.user_embeddings, user@, gnue@));
        assert(final(m)@.file_embeddings == ev_set(mv.file_embeddings, file@, gnfe@));
        assert(final(m)@.w1 =~~= step_new_w1(mv, user@, file@));
        assert(final(m)@.w2 =~~= seq![step_new_w2(mv, user@, file@)]);
        assert(final(m)@.b1 =~= step_new_b1(mv, user@, file@));
        assert(final(m)@.b2 =~= seq![
            spec_upd(mv.b2[0] as int, spec_clamp(step_err(mv, user@, file@))) as i64,
        ]);
        assert(final(m)@ =~~= spec_step(mv, user@, file@)->0);
    }
    Ok(())
}

} // verus!

verus! {

/// The ranking score of a candidate file: its forward score, or the lowest
/// possible score when the forward pass fails, so such candidates sink to
/// the bottom.
pub open spec fn score_of(m: &NCFModel, user: Seq<char>, f: FileMetadata) -> int {
    match spec_forward(m, user, f.file_id@) {
        Some(v) => v,
        None => i64::MIN as int,
    }
}

/// Ranking order between two candidate positions: a higher score wins, and
/// ties go to the earlier candidate.
pub open spec fn ranks_before(
    m: &NCFModel,
    user: Seq<char>,
    files: Seq<FileMetadata>,
    a: int,
    b: int,
) -> bool {
    ||| score_of(m, user, files[a]) > score_of(m, user, files[b])
    ||| (score_of(m, user, files[a]) == score_of(m, user, files[b]) && a < b)
}

/// What the recommendation returns: copies of the candidates at positions
/// `picks`, listed in ranking order, every pick ranking before every
/// candidate left out.
pub open spec fn topk_picks(
    m: &NCFModel,
    user: Seq<char>,
    files: Seq<FileMetadata>,
    out: Seq<FileMetadata>,
    picks: Seq<int>,
) -> bool {
    &&& picks.len() == out.len()
    &&& forall|i: int| 0 <= i < picks.len() ==> 0 <= #[trigger] picks[i] < files.len()
    &&& forall|a: int, b: int|
        0 <= a < b < picks.len() ==> ranks_before(m, user, files, #[trigger] picks[a], #[trigger] picks[b])
    &&& forall|a: int, j: int|
        0 <= a < picks.len() && 0 <= j < files.len() && !(#[trigger] picks.contains(j))
            ==> ranks_before(m, user, files, #[trigger] picks[a], j)
    &&& forall|i: int| 0 <= i < out.len() ==> (#[trigger] out[i])@ == files[picks[i]]@
}

impl NCFModel {
    /// The `top_n` candidates by forward score, ties broken by candidate
    /// order; a candidate whose forward pass fails ranks last.
    pub fn recommend(&self, user: &str, files: &Vec<FileMetadata>, top_n: usize) -> (r: Result<
        Vec<FileMetadata>,
        AIError,
    >)
        requires
            self.wf(),
        ensures
            r is Ok,
            r matches Ok(out) ==> {
                &&& out@.len() == (if top_n <= files@.len() {
                    top_n as int
                } else {
                    files@.len() as int
                })
                &&& exists|picks: Seq<int>| #[trigger] topk_picks(self, user@, files@, out@, picks)
            },
    {
        let n = files.len();
        let mut scores: Vec<i64> = Vec::new();
        for i in 0..n
            invariant
                self.wf(),
                n == files@.len(),
                scores@.len() == i,
                forall|a: int|
                    0 <= a < i ==> (#[trigger] scores@[a]) as int == score_of(
                        self,
                        user@,
                        files@[a],
                    ),
        {
            let s = match self.forward(user, files[i].file_id.as_str()) {
                Ok(v) => v,
                Err(_) => i64::MIN,
            };
            scores.push(s);
        }
        let k = if top_n <= n {
            top_n
        } else {
            n
        };
        let mut remaining: Vec<usize> = Vec::new();
        for i in 0..n
            invariant
                remaining@.len() == i,
                forall|a: int| 0 <= a < i ==> #[trigger] remaining@[a] == a,
        {
            remaining.push(i);
        }
        let mut out: Vec<FileMetadata> = Vec::new();
        let ghost mut picks: Seq<int> = Seq::empty();
        proof {
            assert forall|j: int| 0 <= j < n implies (#[trigger] picks.contains(j) || exists|p: int|
                0 <= p < remaining@.len() && (#[trigger] remaining@[p]) as int == j) by {
                assert(remaining@[j] as int == j);
            }
        }
        for t in 0..k
            invariant
                self.wf(),
                n == files@.len(),
                k <= n,
                scores@.len() == n,
                forall|a: int|
                    0 <= a < n ==> (#[trigger] scores@[a]) as int == score_of(
                        self,
                        user@,
                        files@[a],
                    ),
                remaining@.len() == n - t,
                forall|p: int|
                    0 <= p < remaining@.len() ==> (#[trigger] remaining@[p]) < n,
                forall|p: int, q: int|
                    0 <= p < q < remaining@.len() ==> (#[trigger] remaining@[p]) < (
                    #[trigger] remaining@[q]),
                picks.len() == t,
                out@.len() == t,
                forall|i: int| 0 <= i < t ==> 0 <= #[trigger] picks[i] < n,
                forall|j: int|
                    0 <= j < n ==> (#[trigger] picks.contains(j) || exists|p: int|
                        0 <= p < remaining@.len() && (#[trigger] remaining@[p]) as int == j),
                forall|p: int|
                    0 <= p < remaining@.len() ==> !picks.contains((#[trigger] remaining@[p]) as int),
                forall|a: int, b: int|
                    0 <= a < b < t ==> ranks_before(
                        self,
                        user@,
                        files@,
                        #[trigger] picks[a],
                        #[trigger] picks[b],
                    ),
                forall|a: int, p: int|
                    0 <= a < t && 0 <= p < remaining@.len() ==> ranks_before(
                        self,
                        user@,
                        files@,
                        #[trigger] picks[a],
                        (#[trigger] remaining@[p]) as int,
                    ),
                forall|i: int| 0 <= i < t ==> (#[trigger] out@[i])@ == files@[picks[i]]@,
        {
            let mut best_pos: usize = 0;
            let m_len = remaining.len();
            for p in 1..m_len
                invariant
                    self.wf(),
                    n == files@.len(),
                    scores@.len() == n,
                    forall|a: int|
                        0 <= a < n ==> (#[trigger] scores@[a]) as int == score_of(
                            self,
                            user@,
                            files@[a],
                        ),
                    m_len == remaining@.len(),
                    m_len >= 1,
                    forall|q: int|
                        0 <= q < remaining@.len() ==> (#[trigger] remaining@[q]) < n,
                    forall|q1: int, q2: int|
                        0 <= q1 < q2 < remaining@.len() ==> (#[trigger] remaining@[q1]) < (
                        #[trigger] remaining@[q2]),
                    best_pos < p,
                    best_pos < m_len,
                    forall|q: int|
                        0 <= q < p && q != best_pos ==> ranks_before(
                            self,
                            user@,
                            files@,
                            remaining@[best_pos as int] as int,
                            (#[trigger] remaining@[q]) as int,
                        ),
            {
                if scores[remaining[p]] > scores[remaining[best_pos]] {
                    proof {
                        assert forall|q: int| 0 <= q < p + 1 && q != p implies ranks_before(
                            self,
                            user@,
                            files@,
                            remaining@[p as int] as int,
                            (#[trigger] remaining@[q]) as int,
                        ) by {
                            if q == best_pos {
                            } else {
                                assert(ranks_before(
                                    self,
                                    user@,
                                    files@,
                                    remaining@[best_pos as int] as int,
                                    remaining@[q] as int,
                                ));
                            }
                        }
                    }
                    best_pos = p;
                } else {
                    proof {
                        assert(remaining@[best_pos as int] < remaining@[p as int]);
                        assert(ranks_before(
                            self,
                            user@,
                            files@,
                            remaining@[best_pos as int] as int,
                            remaining@[p as int] as int,
                        ));
                    }
                }
            }
            let ghost entry_rem = remaining@;
            let ghost picks_entry = picks;
            let chosen = remaining.remove(best_pos);
            out.push(crate::store::clone_metadata(&files[chosen]));
            proof {
                picks = picks.push(chosen as int);
                assert(picks.drop_last() =~= picks_entry);
                assert(remaining@ == entry_rem.remove(best_pos as int));
                assert(chosen == entry_rem[best_pos as int]);
                assert forall|j: int|
                    0 <= j < n implies (#[trigger] picks.contains(j) || exists|p: int|
                        0 <= p < remaining@.len() && (#[trigger] remaining@[p]) as int == j) by {
                    if picks_entry.contains(j) {
                        assert(picks.contains(j)) by {
                            let ix = choose|ix: int|
                                0 <= ix < picks_entry.len() && picks_entry[ix] == j;
                            assert(picks[ix] == j);
                        }
                    } else {
                        let p0 = choose|p0: int|
                            0 <= p0 < entry_rem.len() && (#[trigger] entry_rem[p0]) as int == j;
                        if p0 == best_pos {
                            assert(j == chosen as int);
                            assert(picks.last() == j);
                        } else if p0 < best_pos {
                            assert(remaining@[p0] == entry_rem[p0]);
                            assert(remaining@[p0] as int == j);
                        } else {
                            assert(remaining@[p0 - 1] == entry_rem[p0]);
                            assert(remaining@[p0 - 1] as int == j);
                        }
                    }
                }
            }
        }
        proof {
            assert forall|a: int, j: int|
                0 <= a < picks.len() && 0 <= j < files@.len() && !(#[trigger] picks.contains(
                    j,
                )) implies ranks_before(self, user@, files@, #[trigger] picks[a], j) by {
                let p0 = choose|p0: int|
                    0 <= p0 < remaining@.len() && (#[trigger] remaining@[p0]) as int == j;
                assert(remaining@[p0] as int == j);
            }
        }
        let r: Result<Vec<FileMetadata>, AIError> = Ok(out);
        proof {
            assert(topk_picks(self, user@, files@, (r->Ok_0)@, picks));
            assert(exists|ps: Seq<int>| #[trigger] topk_picks(self, user@, files@, (r->Ok_0)@, ps));
        }
        r
    }
}

/// Trains the given model in place; the node's model is passed explicitly.
pub fn train_local_model(model: &mut NCFModel, interactions: &Vec<(String, String)>) -> (r: Result<
    (),
    AIError,
>)
    requires
        old(model).wf(),
    ensures
        final(model).wf(),
        r is Ok <==> spec_train(old(model)@, pairs_view(interactions@)) is Some,
        r is Err ==> *final(model) == *old(model) && r == Err::<(), AIError>(
            AIError::NumericalInstability,
        ),
        r is Ok ==> final(model).epoch >= old(model).epoch && (spec_train(
            old(model)@,
            pairs_view(interactions@),
        ) matches Some(mv) && final(model)@ == (ModelView {
            epoch: final(model).epoch,
            user_embeddings: mv.user_embeddings,
            file_embeddings: mv.file_embeddings,
            w1: mv.w1,
            w2: mv.w2,
            b1: mv.b1,
            b2: mv.b2,
        })),
{
    model.train(interactions)
}

/// The ten best candidates for a user, by forward score.
pub fn get_recommendations(model: &NCFModel, user_id: &str, files: &Vec<FileMetadata>) -> (r:
    Result<Vec<FileMetadata>, AIError>)
    requires
        model.wf(),
    ensures
        r is Ok,
        r matches Ok(out) ==> out@.len() == (if 10 <= files@.len() {
            10int
        } else {
            files@.len() as int
        }),
{
    model.recommend(user_id, files, 10)
}

/// Aggregates a remote model into the local one by federated averaging.
pub fn aggregate_remote_model(model: &mut NCFModel, remote: &NCFModel) -> (r: Result<(), AIError>)
    requires
        old(model).wf(),
    ensures
        final(model).wf(),
        r is Ok <==> remote.wf(),
        r is Err ==> *final(model) == *old(model),
        r is Ok ==> final(model).epoch >= old(model).epoch,
{
    model.aggregate(remote)
}

} // verus!

use crate::codec::{
    dec_str, dec_u32, dec_u64, enc_str, enc_u32, enc_u64, lemma_dec_str, lemma_dec_u32,
    lemma_dec_u64, lemma_subrange_split, put_str, put_u32, put_u64, take_str, take_u32, take_u64,
};

verus! {

// ---- the model blob: parameters serialized for exchange between peers ----

/// The mathematical content of a model.
#[verifier::ext_equal]
pub struct ModelView {
    pub user_embeddings: Seq<(Seq<char>, Seq<i64>)>,
    pub file_embeddings: Seq<(Seq<char>, Seq<i64>)>,
    pub w1: Seq<Seq<i64>>,
    pub w2: Seq<Seq<i64>>,
    pub b1: Seq<i64>,
    pub b2: Seq<i64>,
    pub epoch: u32,
}

/// The view of an embedding table's entries: keys as characters, vectors as
/// sequences, in entry order.
pub open spec fn emb_view(entries: Seq<(String, Vec<i64>)>) -> Seq<(Seq<char>, Seq<i64>)> {
    entries.map_values(|e: (String, Vec<i64>)| (e.0@, e.1@))
}

impl View for NCFModel {
    type V = ModelView;

    open spec fn view(&self) -> ModelView {
        ModelView {
            user_embeddings: emb_view(self.user_embeddings.entries@),
            file_embeddings: emb_view(self.file_embeddings.entries@),
            w1: self.w1@.map_values(|r: Vec<i64>| r@),
            w2: self.w2@.map_values(|r: Vec<i64>| r@),
            b1: self.b1@,
            b2: self.b2@,
            epoch: self.epoch,
        }
    }
}

/// A parameter as eight little-endian bytes of its two's complement.
pub open spec fn enc_i64(x: i64) -> Seq<u8> {
    enc_u64(x as u64)
}

pub open spec fn dec_i64(s: Seq<u8>, pos: int) -> Option<(i64, int)> {
    match dec_u64(s, pos) {
        Some((v, p)) => Some(((v as i64), p)),
        None => None,
    }
}

/// Casting a parameter through its unsigned bits is the identity.
pub proof fn lemma_i64_cast_round_trip(x: i64)
    ensures
        ((x as u64) as i64) == x,
{
    assert(((x as u64) as i64) == x) by (bit_vector);
}

pub proof fn lemma_dec_i64(s: Seq<u8>, pos: int, x: i64)
    requires
        0 <= pos,
        pos + 8 <= s.len(),
        s.subrange(pos, pos + 8) == enc_i64(x),
    ensures
        dec_i64(s, pos) == Some((x, pos + 8)),
{
    lemma_dec_u64(s, pos, x as u64);
    lemma_i64_cast_round_trip(x);
}

pub open spec fn enc_i64s(l: Seq<i64>) -> Seq<u8>
    decreases l.len(),
{
    if l.len() == 0 {
        Seq::empty()
    } else {
        enc_i64s(l.drop_last()) + enc_i64(l.last())
    }
}

pub open spec fn enc_i64_list(l: Seq<i64>) -> Seq<u8> {
    enc_u64(l.len() as u64) + enc_i64s(l)
}

pub open spec fn dec_i64s(s: Seq<u8>, pos: int, n: nat) -> Option<(Seq<i64>, int)>
    decreases n,
{
    if n == 0 {
        if 0 <= pos && pos <= s.len() {
            Some((Seq::empty(), pos))
        } else {
            None
        }
    } else {
        match dec_i64s(s, pos, (n - 1) as nat) {
            Some((l, p)) => match dec_i64(s, p) {
                Some((v, p2)) => Some((l.push(v), p2)),
                None => None,
            },
            None => None,
        }
    }
}

pub open spec fn dec_i64_list(s: Seq<u8>, pos: int) -> Option<(Seq<i64>, int)> {
    match dec_u64(s, pos) {
        Some((n, p)) => dec_i64s(s, p, n as nat),
        None => None,
    }
}

pub proof fn lemma_enc_i64s_len(l: Seq<i64>)
    ensures
        enc_i64s(l).len() == 8 * l.len(),
    decreases l.len(),
{
    vstd::bytes::lemma_auto_spec_u64_to_from_le_bytes();
    if l.len() > 0 {
        lemma_enc_i64s_len(l.drop_last());
    }
}

pub proof fn lemma_dec_i64s(s: Seq<u8>, pos: int, l: Seq<i64>)
    requires
        0 <= pos,
        pos + enc_i64s(l).len() <= s.len(),
        s.subrange(pos, pos + enc_i64s(l).len()) == enc_i64s(l),
    ensures
        dec_i64s(s, pos, l.len()) == Some((l, pos + enc_i64s(l).len())),
    decreases l.len(),
{
    if l.len() > 0 {
        let w = l.drop_last();
        vstd::bytes::lemma_auto_spec_u64_to_from_le_bytes();
        lemma_subrange_split(s, pos, enc_i64s(w), enc_i64(l.last()));
        lemma_dec_i64s(s, pos, w);
        lemma_dec_i64(s, pos + enc_i64s(w).len() as int, l.last());
        assert(w.push(l.last()) =~= l);
    }
}

pub proof fn lemma_dec_i64_list(s: Seq<u8>, pos: int, l: Seq<i64>)
    requires
        0 <= pos,
        l.len() <= u64::MAX,
        pos + enc_i64_list(l).len() <= s.len(),
        s.subrange(pos, pos + enc_i64_list(l).len()) == enc_i64_list(l),
    ensures
        dec_i64_list(s, pos) == Some((l, pos + enc_i64_list(l).len())),
{
    vstd::bytes::lemma_auto_spec_u64_to_from_le_bytes();
    lemma_subrange_split(s, pos, enc_u64(l.len() as u64), enc_i64s(l));
    lemma_dec_u64(s, pos, l.len() as u64);
    lemma_dec_i64s(s, pos + 8, l);
}

// ---- exec encoders and decoders for parameter vectors ----

pub fn put_i64(out: &mut Vec<u8>, x: i64)
    ensures
        final(out)@ == old(out)@ + enc_i64(x),
{
    put_u64(out, x as u64);
}

pub fn take_i64(s: &Vec<u8>, pos: usize) -> (r: Option<(i64, usize)>)
    ensures
        match r {
            Some((v, p)) => dec_i64(s@, pos as int) == Some((v, p as int)),
            None => dec_i64(s@, pos as int) is None,
        },
{
    match take_u64(s, pos) {
        Some((v, p)) => Some((v as i64, p)),
        None => None,
    }
}

pub fn put_i64_list(out: &mut Vec<u8>, l: &Vec<i64>)
    ensures
        final(out)@ == old(out)@ + enc_i64_list(l@),
        l@.len() <= u64::MAX,
{
    let len = l.len();
    put_u64(out, len as u64);
    let n = l.len();
    for i in 0..n
        invariant
            n == l@.len(),
            out@ == old(out)@ + enc_u64(l@.len() as u64) + enc_i64s(l@.take(i as int)),
    {
        put_i64(out, l[i]);
        proof {
            assert(l@.take(i + 1).drop_last() =~= l@.take(i as int));
            assert(l@.take(i + 1).last() == l@[i as int]);
            assert(out@ =~= old(out)@ + enc_u64(l@.len() as u64) + enc_i64s(l@.take(i + 1)));
        }
    }
    proof {
        assert(l@.take(n as int) =~= l@);
        assert(final(out)@ =~= old(out)@ + enc_i64_list(l@));
    }
}

pub fn take_i64_list(s: &Vec<u8>, pos: usize) -> (r: Option<(Vec<i64>, usize)>)
    ensures
        match r {
            Some((v, p)) => dec_i64_list(s@, pos as int) == Some((v@, p as int)),
            None => dec_i64_list(s@, pos as int) is None,
        },
{
    let (n64, p0) = match take_u64(s, pos) {
        Some(x) => x,
        None => {
            return None;
        },
    };
    let ghost n_spec = n64 as nat;
    let buf_len = s.len();
    if n64 > (usize::MAX as u64) / 8 {
        proof {
            assert(s@.len() == buf_len as nat);
            assert(8 * n_spec > usize::MAX as nat);
            lemma_dec_i64s_min(s@, p0 as int, n_spec);
        }
        return None;
    }
    let n = n64 as usize;
    let mut out: Vec<i64> = Vec::new();
    let mut p = p0;
    let mut i: usize = 0;
    while i < n
        invariant
            i <= n,
            n_spec == n as nat,
            n_spec == n64 as nat,
            dec_u64(s@, pos as int) == Some((n64, p0 as int)),
            dec_i64s(s@, p0 as int, i as nat) == Some((out@, p as int)),
        decreases n - i,
    {
        let (v, p2) = match take_i64(s, p) {
            Some(x) => x,
            None => {
                proof {
                    lemma_dec_i64s_stuck(s@, p0 as int, i as nat, n_spec, p as int);
                }
                return None;
            },
        };
        out.push(v);
        p = p2;
        i = i + 1;
    }
    Some((out, p))
}

proof fn lemma_dec_i64s_stuck(s: Seq<u8>, pos: int, i: nat, n: nat, p: int)
    requires
        i < n,
        dec_i64s(s, pos, i) matches Some(x) && x.1 == p,
        dec_i64(s, p) is None,
    ensures
        dec_i64s(s, pos, n) is None,
    decreases n,
{
    if n == i + 1 {
    } else {
        lemma_dec_i64s_stuck(s, pos, i, (n - 1) as nat, p);
    }
}

proof fn lemma_dec_i64s_advance(s: Seq<u8>, pos: int, n: nat)
    requires
        dec_i64s(s, pos, n) is Some,
    ensures
        dec_i64s(s, pos, n) matches Some(x) && x.1 == pos + 8 * n && x.1 <= s.len() && pos >= 0,
    decreases n,
{
    if n > 0 {
        lemma_dec_i64s_advance(s, pos, (n - 1) as nat);
    }
}

proof fn lemma_dec_i64s_min(s: Seq<u8>, pos: int, n: nat)
    requires
        8 * n > s.len(),
    ensures
        dec_i64s(s, pos, n) is None,
{
    if dec_i64s(s, pos, n) is Some {
        lemma_dec_i64s_advance(s, pos, n);
    }
}

} // verus!

verus! {

// ---- embedding tables and weight matrices on the wire ----

pub open spec fn enc_embs(l: Seq<(Seq<char>, Seq<i64>)>) -> Seq<u8>
    decreases l.len(),
{
    if l.len() == 0 {
        Seq::empty()
    } else {
        enc_embs(l.drop_last()) + enc_str(l.last().0) + enc_i64_list(l.last().1)
    }
}

pub open spec fn enc_emb_list(l: Seq<(Seq<char>, Seq<i64>)>) -> Seq<u8> {
    enc_u64(l.len() as u64) + enc_embs(l)
}

pub open spec fn dec_embs(s: Seq<u8>, pos: int, n: nat) -> Option<
    (Seq<(Seq<char>, Seq<i64>)>, int),
>
    decreases n,
{
    if n == 0 {
        if 0 <= pos && pos <= s.len() {
            Some((Seq::empty(), pos))
        } else {
            None
        }
    } else {
        match dec_embs(s, pos, (n - 1) as nat) {
            Some((l, p)) => match dec_str(s, p) {
                Some((k, p2)) => match dec_i64_list(s, p2) {
                    Some((v, p3)) => Some((l.push((k, v)), p3)),
                    None => None,
                },
                None => None,
            },
            None => None,
        }
    }
}

pub open spec fn dec_emb_list(s: Seq<u8>, pos: int) -> Option<(Seq<(Seq<char>, Seq<i64>)>, int)> {
    match dec_u64(s, pos) {
        Some((n, p)) => dec_embs(s, p, n as nat),
        None => None,
    }
}

pub open spec fn enc_rows(l: Seq<Seq<i64>>) -> Seq<u8>
    decreases l.len(),
{
    if l.len() == 0 {
        Seq::empty()
    } else {
        enc_rows(l.drop_last()) + enc_i64_list(l.last())
    }
}

pub open spec fn enc_row_list(l: Seq<Seq<i64>>) -> Seq<u8> {
    enc_u64(l.len() as u64) + enc_rows(l)
}

pub open spec fn dec_rows(s: Seq<u8>, pos: int, n: nat) -> Option<(Seq<Seq<i64>>, int)>
    decreases n,
{
    if n == 0 {
        if 0 <= pos && pos <= s.len() {
            Some((Seq::empty(), pos))
        } else {
            None
        }
    } else {
        match dec_rows(s, pos, (n - 1) as nat) {
            Some((l, p)) => match dec_i64_list(s, p) {
                Some((v, p2)) => Some((l.push(v), p2)),
                None => None,
            },
            None => None,
        }
    }
}

pub open spec fn dec_row_list(s: Seq<u8>, pos: int) -> Option<(Seq<Seq<i64>>, int)> {
    match dec_u64(s, pos) {
        Some((n, p)) => dec_rows(s, p, n as nat),
        None => None,
    }
}

pub open spec fn bounded_embs(l: Seq<(Seq<char>, Seq<i64>)>) -> bool {
    forall|i: int|
        0 <= i < l.len() ==> (#[trigger] l[i]).0.len() <= u64::MAX && l[i].1.len() <= u64::MAX
}

pub open spec fn bounded_rows(l: Seq<Seq<i64>>) -> bool {
    forall|i: int| 0 <= i < l.len() ==> (#[trigger] l[i]).len() <= u64::MAX
}

pub proof fn lemma_dec_embs(s: Seq<u8>, pos: int, l: Seq<(Seq<char>, Seq<i64>)>)
    requires
        0 <= pos,
        bounded_embs(l),
        pos + enc_embs(l).len() <= s.len(),
        s.subrange(pos, pos + enc_embs(l).len()) == enc_embs(l),
    ensures
        dec_embs(s, pos, l.len()) == Some((l, pos + enc_embs(l).len())),
    decreases l.len(),
{
    if l.len() > 0 {
        let w = l.drop_last();
        let ew = enc_embs(w);
        let ek = enc_str(l.last().0);
        let ev = enc_i64_list(l.last().1);
        assert(enc_embs(l) == ew + ek + ev);
        assert(ew + ek + ev =~= ew + (ek + ev));
        lemma_subrange_split(s, pos, ew, ek + ev);
        lemma_dec_embs(s, pos, w);
        lemma_subrange_split(s, pos + ew.len() as int, ek, ev);
        lemma_dec_str(s, pos + ew.len() as int, l.last().0);
        lemma_dec_i64_list(s, pos + ew.len() + ek.len() as int, l.last().1);
        assert(w.push(l.last()) =~= l);
    }
}

pub proof fn lemma_dec_emb_list(s: Seq<u8>, pos: int, l: Seq<(Seq<char>, Seq<i64>)>)
    requires
        0 <= pos,
        l.len() <= u64::MAX,
        bounded_embs(l),
        pos + enc_emb_list(l).len() <= s.len(),
        s.subrange(pos, pos + enc_emb_list(l).len()) == enc_emb_list(l),
    ensures
        dec_emb_list(s, pos) == Some((l, pos + enc_emb_list(l).len())),
{
    vstd::bytes::lemma_auto_spec_u64_to_from_le_bytes();
    lemma_subrange_split(s, pos, enc_u64(l.len() as u64), enc_embs(l));
    lemma_dec_u64(s, pos, l.len() as u64);
    lemma_dec_embs(s, pos + 8, l);
}

pub proof fn lemma_dec_rows(s: Seq<u8>, pos: int, l: Seq<Seq<i64>>)
    requires
        0 <= pos,
        bounded_rows(l),
        pos + enc_rows(l).len() <= s.len(),
        s.subrange(pos, pos + enc_rows(l).len()) == enc_rows(l),
    ensures
        dec_rows(s, pos, l.len()) == Some((l, pos + enc_rows(l).len())),
    decreases l.len(),
{
    if l.len() > 0 {
        let w = l.drop_last();
        lemma_subrange_split(s, pos, enc_rows(w), enc_i64_list(l.last()));
        lemma_dec_rows(s, pos, w);
        lemma_dec_i64_list(s, pos + enc_rows(w).len() as int, l.last());
        assert(w.push(l.last()) =~= l);
    }
}

pub proof fn lemma_dec_row_list(s: Seq<u8>, pos: int, l: Seq<Seq<i64>>)
    requires
        0 <= pos,
        l.len() <= u64::MAX,
        bounded_rows(l),
        pos + enc_row_list(l).len() <= s.len(),
        s.subrange(pos, pos + enc_row_list(l).len()) == enc_row_list(l),
    ensures
        dec_row_list(s, pos) == Some((l, pos + enc_row_list(l).len())),
{
    vstd::bytes::lemma_auto_spec_u64_to_from_le_bytes();
    lemma_subrange_split(s, pos, enc_u64(l.len() as u64), enc_rows(l));
    lemma_dec_u64(s, pos, l.len() as u64);
    lemma_dec_rows(s, pos + 8, l);
}

// ---- the whole model as one blob ----

/// The binary encoding of a model: both embedding tables, the two weight
/// matrices, the two biases and the epoch.
pub open spec fn enc_model(m: ModelView) -> Seq<u8> {
    enc_emb_list(m.user_embeddings) + enc_emb_list(m.file_embeddings) + enc_row_list(m.w1)
        + enc_row_list(m.w2) + enc_i64_list(m.b1) + enc_i64_list(m.b2) + enc_u32(m.epoch)
}

/// What decoding a blob as a model yields.
pub open spec fn dec_model(s: Seq<u8>) -> Option<ModelView> {
    match dec_emb_list(s, 0) {
        Some((user_embeddings, p1)) => match dec_emb_list(s, p1) {
            Some((file_embeddings, p2)) => match dec_row_list(s, p2) {
                Some((w1, p3)) => match dec_row_list(s, p3) {
                    Some((w2, p4)) => match dec_i64_list(s, p4) {
                        Some((b1, p5)) => match dec_i64_list(s, p5) {
                            Some((b2, p6)) => match dec_u32(s, p6) {
                                Some((epoch, _p7)) => Some(
                                    ModelView {
                                        user_embeddings,
                                        file_embeddings,
                                        w1,
                                        w2,
                                        b1,
                                        b2,
                                        epoch,
                                    },
                                ),
                                None => None,
                            },
                            None => None,
                        },
                        None => None,
                    },
                    None => None,
                },
                None => None,
            },
            None => None,
        },
        None => None,
    }
}

/// Every list of the model fits its length prefix.
pub open spec fn model_bounded(m: ModelView) -> bool {
    &&& m.user_embeddings.len() <= u64::MAX
    &&& bounded_embs(m.user_embeddings)
    &&& m.file_embeddings.len() <= u64::MAX
    &&& bounded_embs(m.file_embeddings)
    &&& m.w1.len() <= u64::MAX
    &&& bounded_rows(m.w1)
    &&& m.w2.len() <= u64::MAX
    &&& bounded_rows(m.w2)
    &&& m.b1.len() <= u64::MAX
    &&& m.b2.len() <= u64::MAX
}

/// Law: a model blob decodes back to exactly the model it was exported from.
#[verifier::rlimit(60)]
#[verifier::spinoff_prover]
pub proof fn lemma_model_round_trip(m: ModelView)
    requires
        model_bounded(m),
    ensures
        dec_model(enc_model(m)) == Some(m),
{
    let s = enc_model(m);
    let e1 = enc_emb_list(m.user_embeddings);
    let e2 = enc_emb_list(m.file_embeddings);
    let e3 = enc_row_list(m.w1);
    let e4 = enc_row_list(m.w2);
    let e5 = enc_i64_list(m.b1);
    let e6 = enc_i64_list(m.b2);
    let e7 = enc_u32(m.epoch);
    vstd::bytes::lemma_auto_spec_u32_to_from_le_bytes();
    assert(s =~= e1 + (e2 + (e3 + (e4 + (e5 + (e6 + e7))))));
    assert(s.subrange(0, s.len() as int) =~= s);
    let p0: int = 0;
    lemma_subrange_split(s, p0, e1, e2 + (e3 + (e4 + (e5 + (e6 + e7)))));
    lemma_dec_emb_list(s, p0, m.user_embeddings);
    let p1 = p0 + e1.len() as int;
    lemma_subrange_split(s, p1, e2, e3 + (e4 + (e5 + (e6 + e7))));
    lemma_dec_emb_list(s, p1, m.file_embeddings);
    let p2 = p1 + e2.len() as int;
    lemma_subrange_split(s, p2, e3, e4 + (e5 + (e6 + e7)));
    lemma_dec_row_list(s, p2, m.w1);
    let p3 = p2 + e3.len() as int;
    lemma_subrange_split(s, p3, e4, e5 + (e6 + e7));
    lemma_dec_row_list(s, p3, m.w2);
    let p4 = p3 + e4.len() as int;
    lemma_subrange_split(s, p4, e5, e6 + e7);
    lemma_dec_i64_list(s, p4, m.b1);
    let p5 = p4 + e5.len() as int;
    lemma_subrange_split(s, p5, e6, e7);
    lemma_dec_i64_list(s, p5, m.b2);
    let p6 = p5 + e6.len() as int;
    assert(s.subrange(p6, p6 + e7.len() as int) =~= e7);
    lemma_dec_u32(s, p6, m.epoch);
    assert(dec_model(s) =~= Some(m));
}

impl NCFModel {
    /// Serializes the model as one blob for exchange with peers.
    pub fn export_model(&self) -> (out: Vec<u8>)
        ensures
            out@ == enc_model(self@),
            model_bounded(self@),
    {
        let mut out: Vec<u8> = Vec::new();
        put_emb_list(&mut out, &self.user_embeddings.entries);
        put_emb_list(&mut out, &self.file_embeddings.entries);
        put_row_list(&mut out, &self.w1);
        put_row_list(&mut out, &self.w2);
        put_i64_list(&mut out, &self.b1);
        put_i64_list(&mut out, &self.b2);
        put_u32(&mut out, self.epoch);
        proof {
            assert(out@ =~= enc_model(self@));
        }
        out
    }

    /// Reads a model back from a blob; the result is whatever the peer sent
    /// and must still pass validation before it is aggregated.
    pub fn import_model(blob: &Vec<u8>) -> (r: Option<NCFModel>)
        ensures
            r matches Some(m) ==> dec_model(blob@) == Some(m@),
            r is None ==> dec_model(blob@) is None,
    {
        let (user_entries, p1) = match take_emb_list(blob, 0) {
            Some(x) => x,
            None => {
                return None;
            },
        };
        let (file_entries, p2) = match take_emb_list(blob, p1) {
            Some(x) => x,
            None => {
                return None;
            },
        };
        let (w1, p3) = match take_row_list(blob, p2) {
            Some(x) => x,
            None => {
                return None;
            },
        };
        let (w2, p4) = match take_row_list(blob, p3) {
            Some(x) => x,
            None => {
                return None;
            },
        };
        let (b1, p5) = match take_i64_list(blob, p4) {
            Some(x) => x,
            None => {
                return None;
            },
        };
        let (b2, p6) = match take_i64_list(blob, p5) {
            Some(x) => x,
            None => {
                return None;
            },
        };
        let (epoch, _p7) = match take_u32(blob, p6) {
            Some(x) => x,
            None => {
                return None;
            },
        };
        let m = NCFModel {
            user_embeddings: StringMap { entries: user_entries },
            file_embeddings: StringMap { entries: file_entries },
            w1,
            w2,
            b1,
            b2,
            epoch,
        };
        proof {
            assert(dec_model(blob@) =~= Some(m@));
        }
        Some(m)
    }
}

/// Writes one embedding table, length-prefixed.
fn put_emb_list(out: &mut Vec<u8>, l: &Vec<(String, Vec<i64>)>)
    ensures
        final(out)@ == old(out)@ + enc_emb_list(
            l@.map_values(|e: (String, Vec<i64>)| (e.0@, e.1@)),
        ),
        bounded_embs(l@.map_values(|e: (String, Vec<i64>)| (e.0@, e.1@))),
        l@.map_values(|e: (String, Vec<i64>)| (e.0@, e.1@)).len() <= u64::MAX,
{
    let ghost lv = l@.map_values(|e: (String, Vec<i64>)| (e.0@, e.1@));
    put_u64(out, l.len() as u64);
    let n = l.len();
    for i in 0..n
        invariant
            n == l@.len(),
            lv == l@.map_values(|e: (String, Vec<i64>)| (e.0@, e.1@)),
            out@ == old(out)@ + enc_u64(lv.len() as u64) + enc_embs(lv.take(i as int)),
            bounded_embs(lv.take(i as int)),
    {
        put_str(out, l[i].0.as_str());
        put_i64_list(out, &l[i].1);
        proof {
            assert(lv.take(i + 1).drop_last() =~= lv.take(i as int));
            assert(lv.take(i + 1).last() == lv[i as int]);
            assert(out@ =~= old(out)@ + enc_u64(lv.len() as u64) + enc_embs(lv.take(i + 1)));
            assert(bounded_embs(lv.take(i + 1)));
        }
    }
    proof {
        assert(lv.take(n as int) =~= lv);
        assert(final(out)@ =~= old(out)@ + enc_emb_list(lv));
    }
}

/// Writes one weight matrix, length-prefixed.
fn put_row_list(out: &mut Vec<u8>, l: &Vec<Vec<i64>>)
    ensures
        final(out)@ == old(out)@ + enc_row_list(l@.map_values(|r: Vec<i64>| r@)),
        bounded_rows(l@.map_values(|r: Vec<i64>| r@)),
        l@.map_values(|r: Vec<i64>| r@).len() <= u64::MAX,
{
    let ghost lv = l@.map_values(|r: Vec<i64>| r@);
    put_u64(out, l.len() as u64);
    let n = l.len();
    for i in 0..n
        invariant
            n == l@.len(),
            lv == l@.map_values(|r: Vec<i64>| r@),
            out@ == old(out)@ + enc_u64(lv.len() as u64) + enc_rows(lv.take(i as int)),
            bounded_rows(lv.take(i as int)),
    {
        put_i64_list(out, &l[i]);
        proof {
            assert(lv.take(i + 1).drop_last() =~= lv.take(i as int));
            assert(lv.take(i + 1).last() == lv[i as int]);
            assert(out@ =~= old(out)@ + enc_u64(lv.len() as u64) + enc_rows(lv.take(i + 1)));
            assert(bounded_rows(lv.take(i + 1)));
        }
    }
    proof {
        assert(lv.take(n as int) =~= lv);
        assert(final(out)@ =~= old(out)@ + enc_row_list(lv));
    }
}

/// Reads one embedding table.
fn take_emb_list(s: &Vec<u8>, pos: usize) -> (r: Option<(Vec<(String, Vec<i64>)>, usize)>)
    ensures
        match r {
            Some((v, p)) => dec_emb_list(s@, pos as int) == Some(
                (v@.map_values(|e: (String, Vec<i64>)| (e.0@, e.1@)), p as int),
            ),
            None => dec_emb_list(s@, pos as int) is None,
        },
{
    let (n64, p0) = match take_u64(s, pos) {
        Some(x) => x,
        None => {
            return None;
        },
    };
    let ghost n_spec = n64 as nat;
    let buf_len = s.len();
    if n64 > (usize::MAX as u64) / 16 {
        proof {
            assert(s@.len() == buf_len as nat);
            assert(16 * n_spec > usize::MAX as nat);
            lemma_dec_embs_min(s@, p0 as int, n_spec);
        }
        return None;
    }
    let n = n64 as usize;
    let mut out: Vec<(String, Vec<i64>)> = Vec::new();
    let mut p = p0;
    let mut i: usize = 0;
    while i < n
        invariant
            i <= n,
            n_spec == n as nat,
            n_spec == n64 as nat,
            dec_u64(s@, pos as int) == Some((n64, p0 as int)),
            dec_embs(s@, p0 as int, i as nat) == Some(
                (out@.map_values(|e: (String, Vec<i64>)| (e.0@, e.1@)), p as int),
            ),
        decreases n - i,
    {
        let (k, p2) = match take_str(s, p) {
            Some(x) => x,
            None => {
                proof {
                    lemma_dec_embs_stuck(s@, p0 as int, i as nat, n_spec, p as int);
                }
                return None;
            },
        };
        let (v, p3) = match take_i64_list(s, p2) {
            Some(x) => x,
            None => {
                proof {
                    lemma_dec_embs_stuck(s@, p0 as int, i as nat, n_spec, p as int);
                }
                return None;
            },
        };
        out.push((k, v));
        p = p3;
        i = i + 1;
        proof {
            assert(out@.map_values(|e: (String, Vec<i64>)| (e.0@, e.1@)) =~= out@.map_values(
                |e: (String, Vec<i64>)| (e.0@, e.1@),
            ).drop_last().push((out@.last().0@, out@.last().1@)));
            assert(out@.map_values(|e: (String, Vec<i64>)| (e.0@, e.1@)).drop_last()
                =~= out@.drop_last().map_values(|e: (String, Vec<i64>)| (e.0@, e.1@)));
        }
    }
    Some((out, p))
}

/// Reads one weight matrix.
fn take_row_list(s: &Vec<u8>, pos: usize) -> (r: Option<(Vec<Vec<i64>>, usize)>)
    ensures
        match r {
            Some((v, p)) => dec_row_list(s@, pos as int) == Some(
                (v@.map_values(|r2: Vec<i64>| r2@), p as int),
            ),
            None => dec_row_list(s@, pos as int) is None,
        },
{
    let (n64, p0) = match take_u64(s, pos) {
        Some(x) => x,
        None => {
            return None;
        },
    };
    let ghost n_spec = n64 as nat;
    let buf_len = s.len();
    if n64 > (usize::MAX as u64) / 8 {
        proof {
            assert(s@.len() == buf_len as nat);
            assert(8 * n_spec > usize::MAX as nat);
            lemma_dec_rows_min(s@, p0 as int, n_spec);
        }
        return None;
    }
    let n = n64 as usize;
    let mut out: Vec<Vec<i64>> = Vec::new();
    let mut p = p0;
    let mut i: usize = 0;
    while i < n
        invariant
            i <= n,
            n_spec == n as nat,
            n_spec == n64 as nat,
            dec_u64(s@, pos as int) == Some((n64, p0 as int)),
            dec_rows(s@, p0 as int, i as nat) == Some(
                (out@.map_values(|r2: Vec<i64>| r2@), p as int),
            ),
        decreases n - i,
    {
        let (v, p2) = match take_i64_list(s, p) {
            Some(x) => x,
            None => {
                proof {
                    lemma_dec_rows_stuck(s@, p0 as int, i as nat, n_spec, p as int);
                }
                return None;
            },
        };
        out.push(v);
        p = p2;
        i = i + 1;
        proof {
            assert(out@.map_values(|r2: Vec<i64>| r2@) =~= out@.map_values(
                |r2: Vec<i64>| r2@,
            ).drop_last().push(out@.last()@));
            assert(out@.map_values(|r2: Vec<i64>| r2@).drop_last() =~= out@.drop_last().map_values(
                |r2: Vec<i64>| r2@,
            ));
        }
    }
    Some((out, p))
}

proof fn lemma_dec_embs_stuck(s: Seq<u8>, pos: int, i: nat, n: nat, p: int)
    requires
        i < n,
        dec_embs(s, pos, i) matches Some(x) && x.1 == p,
        match dec_str(s, p) {
            Some((_, p2)) => dec_i64_list(s, p2) is None,
            None => true,
        },
    ensures
        dec_embs(s, pos, n) is None,
    decreases n,
{
    if n == i + 1 {
    } else {
        lemma_dec_embs_stuck(s, pos, i, (n - 1) as nat, p);
    }
}

proof fn lemma_dec_embs_advance(s: Seq<u8>, pos: int, n: nat)
    requires
        dec_embs(s, pos, n) is Some,
    ensures
        dec_embs(s, pos, n) matches Some(x) && x.1 >= pos + 16 * n && x.1 <= s.len() && pos >= 0,
    decreases n,
{
    if n > 0 {
        lemma_dec_embs_advance(s, pos, (n - 1) as nat);
        let (l, p) = dec_embs(s, pos, (n - 1) as nat).unwrap();
        lemma_dec_str_min(s, p);
        let (k, p2) = dec_str(s, p).unwrap();
        lemma_dec_i64_list_min(s, p2);
    }
}

proof fn lemma_dec_embs_min(s: Seq<u8>, pos: int, n: nat)
    requires
        16 * n > s.len(),
    ensures
        dec_embs(s, pos, n) is None,
{
    if dec_embs(s, pos, n) is Some {
        lemma_dec_embs_advance(s, pos, n);
    }
}

proof fn lemma_dec_rows_stuck(s: Seq<u8>, pos: int, i: nat, n: nat, p: int)
    requires
        i < n,
        dec_rows(s, pos, i) matches Some(x) && x.1 == p,
        dec_i64_list(s, p) is None,
    ensures
        dec_rows(s, pos, n) is None,
    decreases n,
{
    if n == i + 1 {
    } else {
        lemma_dec_rows_stuck(s, pos, i, (n - 1) as nat, p);
    }
}

proof fn lemma_dec_rows_advance(s: Seq<u8>, pos: int, n: nat)
    requires
        dec_rows(s, pos, n) is Some,
    ensures
        dec_rows(s, pos, n) matches Some(x) && x.1 >= pos + 8 * n && x.1 <= s.len() && pos >= 0,
    decreases n,
{
    if n > 0 {
        lemma_dec_rows_advance(s, pos, (n - 1) as nat);
        let (l, p) = dec_rows(s, pos, (n - 1) as nat).unwrap();
        lemma_dec_i64_list_min(s, p);
    }
}

proof fn lemma_dec_rows_min(s: Seq<u8>, pos: int, n: nat)
    requires
        8 * n > s.len(),
    ensures
        dec_rows(s, pos, n) is None,
{
    if dec_rows(s, pos, n) is Some {
        lemma_dec_rows_advance(s, pos, n);
    }
}

/// A decoded string occupies at least its length prefix.
proof fn lemma_dec_str_min(s: Seq<u8>, pos: int)
    requires
        dec_str(s, pos) is Some,
    ensures
        dec_str(s, pos) matches Some(x) && x.1 >= pos + 8 && x.1 <= s.len(),
{
    let (n, p) = dec_u64(s, pos).unwrap();
    lemma_dec_chars_range(s, p, n as nat);
}

proof fn lemma_dec_chars_range(s: Seq<u8>, pos: int, n: nat)
    requires
        crate::codec::dec_chars(s, pos, n) is Some,
    ensures
        crate::codec::dec_chars(s, pos, n) matches Some(x) && x.1 >= pos && x.1 <= s.len(),
    decreases n,
{
    if n > 0 {
        lemma_dec_chars_range(s, pos, (n - 1) as nat);
    }
}

/// A decoded parameter list occupies at least its length prefix.
proof fn lemma_dec_i64_list_min(s: Seq<u8>, pos: int)
    requires
        dec_i64_list(s, pos) is Some,
    ensures
        dec_i64_list(s, pos) matches Some(x) && x.1 >= pos + 8 && x.1 <= s.len(),
{
    let (n, p) = dec_u64(s, pos).unwrap();
    lemma_dec_i64s_range(s, p, n as nat);
}

proof fn lemma_dec_i64s_range(s: Seq<u8>, pos: int, n: nat)
    requires
        dec_i64s(s, pos, n) is Some,
    ensures
        dec_i64s(s, pos, n) matches Some(x) && x.1 >= pos && x.1 <= s.len(),
    decreases n,
{
    if n > 0 {
        lemma_dec_i64s_range(s, pos, (n - 1) as nat);
    }
}

} // verus!

verus! {

/// Law: exporting a model and importing the blob yields a model with the
/// same content, because the blob decodes to exactly the exported view.
pub proof fn lemma_export_import_round_trip(m: &NCFModel)
    requires
        model_bounded(m@),
    ensures
        dec_model(enc_model(m@)) == Some(m@),
{
    lemma_model_round_trip(m@);
}

/// Aggregates a model blob received from a peer: decodes it and averages it
/// in; a blob that does not decode, or decodes to an ill-formed model, is
/// rejected whole.
pub fn aggregate_model_bytes(model: &mut NCFModel, blob: &Vec<u8>) -> (r: Result<(), AIError>)
    requires
        old(model).wf(),
    ensures
        final(model).wf(),
        dec_model(blob@) is None ==> *final(model) == *old(model) && (r matches Err(e)
            && e is ModelValidation),
        r is Err ==> *final(model) == *old(model),
        r is Ok ==> final(model).epoch >= old(model).epoch,
{
    let remote = match NCFModel::import_model(blob) {
        Some(m) => m,
        None => {
            return Err(AIError::ModelValidation(String::from_str("model blob")));
        },
    };
    model.aggregate(&remote)
}

} // verus!

verus! {

// ---- embedding tables at the level of their entry sequences ----

/// The first entry with the given key, or -1.
pub open spec fn ev_index_of(entries: Seq<(Seq<char>, Seq<i64>)>, k: Seq<char>) -> int
    decreases entries.len(),
{
    if entries.len() == 0 {
        -1
    } else if entries.first().0 == k {
        0
    } else {
        let r = ev_index_of(entries.drop_first(), k);
        if r < 0 {
            -1
        } else {
            r + 1
        }
    }
}

pub open spec fn ev_has(entries: Seq<(Seq<char>, Seq<i64>)>, k: Seq<char>) -> bool {
    ev_index_of(entries, k) >= 0
}

pub open spec fn ev_get(entries: Seq<(Seq<char>, Seq<i64>)>, k: Seq<char>) -> Seq<i64> {
    entries[ev_index_of(entries, k)].1
}

/// The table with `k` bound to `v`: updated in place, or appended when new.
pub open spec fn ev_set(
    entries: Seq<(Seq<char>, Seq<i64>)>,
    k: Seq<char>,
    v: Seq<i64>,
) -> Seq<(Seq<char>, Seq<i64>)> {
    if ev_has(entries, k) {
        entries.update(ev_index_of(entries, k), (k, v))
    } else {
        entries.push((k, v))
    }
}

/// The index of the first matching entry, characterized.
proof fn lemma_ev_index_first(entries: Seq<(String, Vec<i64>)>, i: int, k: Seq<char>)
    requires
        0 <= i < entries.len(),
        entries[i].0@ == k,
        forall|j: int| 0 <= j < i ==> entries[j].0@ != k,
    ensures
        ev_index_of(emb_view(entries), k) == i,
        ev_get(emb_view(entries), k) == entries[i].1@,
    decreases entries.len(),
{
    let ev = emb_view(entries);
    if i == 0 {
        assert(ev.first().0 == k);
    } else {
        assert(ev.first().0 == entries[0].0@);
        assert(entries[0].0@ != k);
        assert(ev.drop_first() =~= emb_view(entries.drop_first()));
        lemma_ev_index_first(entries.drop_first(), i - 1, k);
    }
}

/// Absent keys have no index.
proof fn lemma_ev_index_absent(entries: Seq<(String, Vec<i64>)>, k: Seq<char>)
    requires
        forall|j: int| 0 <= j < entries.len() ==> entries[j].0@ != k,
    ensures
        ev_index_of(emb_view(entries), k) == -1,
    decreases entries.len(),
{
    let ev = emb_view(entries);
    if entries.len() > 0 {
        assert(ev.first().0 == entries[0].0@);
        assert(ev.drop_first() =~= emb_view(entries.drop_first()));
        lemma_ev_index_absent(entries.drop_first(), k);
    }
}

/// A stored table's map value is the entry-level value.
proof fn lemma_ev_of_map(m: &StringMap<Vec<i64>>, k: Seq<char>)
    requires
        m.wf(),
        m@.contains_key(k),
    ensures
        ev_has(emb_view(m.entries@), k),
        ev_get(emb_view(m.entries@), k) == m@[k]@,
{
    crate::util::lemma_assoc_contains(m.entries@, k);
    let i = choose|i: int| 0 <= i < m.entries@.len() && m.entries@[i].0@ == k;
    crate::util::lemma_assoc_index(m.entries@, i);
    assert(forall|j: int| 0 <= j < i ==> m.entries@[j].0@ != k) by {
        assert(forall|j: int|
            0 <= j < i ==> #[trigger] m.entries@[j].0@ != m.entries@[i].0@);
    }
    lemma_ev_index_first(m.entries@, i, k);
}

/// An absent key has no entry.
proof fn lemma_ev_of_map_absent(m: &StringMap<Vec<i64>>, k: Seq<char>)
    requires
        m.wf(),
        !m@.contains_key(k),
    ensures
        !ev_has(emb_view(m.entries@), k),
{
    crate::util::lemma_assoc_contains(m.entries@, k);
    lemma_ev_index_absent(m.entries@, k);
}

/// An in-place update of the first matching entry is `ev_set`.
proof fn lemma_ev_set_update(
    entries: Seq<(String, Vec<i64>)>,
    i: int,
    key: String,
    value: Vec<i64>,
)
    requires
        0 <= i < entries.len(),
        entries[i].0@ == key@,
        forall|j: int| 0 <= j < i ==> entries[j].0@ != key@,
    ensures
        emb_view(entries.update(i, (key, value))) == ev_set(emb_view(entries), key@, value@),
{
    lemma_ev_index_first(entries, i, key@);
    assert(emb_view(entries.update(i, (key, value))) =~= emb_view(entries).update(
        i,
        (key@, value@),
    ));
}

} // verus!
