//! Constraints and their compilation into a scoring function.
//!
//! A constraint is parsed from text of the form `expr op target`. The six
//! comparison operators gate a candidate: a failed comparison rejects it
//! outright. The tolerance marker `~` never rejects; it adds the deviation
//! `|target - value|`, quantized to integer parts per billion, to the
//! candidate's composite error. A candidate whose expression fails to
//! evaluate (for instance, one referencing an unbound slot) is rejected.

use vstd::prelude::*;

use crate::eval::{
    ctx_bind, ctx_new, ctx_vars, eq_eps_bits, eval_bits, eval_eq, eval_ge, eval_gt, eval_le,
    eval_lt, eval_ne, eval_tol, expr_parses, f64_bits, le_bits, lt_bits, ne_eps_bits, parse_expr,
    tol_ppb_bits, RExpr, RTarget,
};
use crate::parse::{find_op, split_at_op, split_bound, OpTok};
use crate::rset::RSet;
use vstd::string::StringSliceAdditionalSpecFns;

verus! {

/// Why a constraint text was refused.
#[derive(Clone, Copy, Debug, PartialEq, Eq, Structural)]
pub enum ParseError {
    /// No recognized operator occurs in the text.
    NoOperator,
    /// The left side does not parse as an arithmetic expression.
    BadExpression,
    /// The right side does not parse as a real-number literal.
    BadNumber,
}

/// The mathematical content of one constraint: its operator and the texts
/// of its expression and target.
pub struct BoundModel {
    pub op: OpTok,
    pub expr: Seq<u8>,
    pub target: Seq<u8>,
}

/// The bit pattern of a target text known to parse.
pub open spec fn target_val(t: Seq<u8>) -> u64 {
    f64_bits(t)->0
}

/// Whether the comparison `v op t` holds on the two 64-bit floats given by
/// their bit patterns; the reversed operators are stated through the
/// standard partial order (`v >= t` is `t <= v`). The tolerance marker
/// never gates.
pub open spec fn cmp_holds(op: OpTok, v: u64, t: u64) -> bool {
    match op {
        OpTok::Le => le_bits(v, t),
        OpTok::Ge => le_bits(t, v),
        OpTok::Lt => lt_bits(v, t),
        OpTok::Gt => lt_bits(t, v),
        OpTok::EqEps => eq_eps_bits(v, t),
        OpTok::NeEps => ne_eps_bits(v, t),
        OpTok::Tol => true,
    }
}

/// Whether one constraint lets a candidate through: its expression must
/// evaluate, and for a comparison the comparison must hold.
pub open spec fn bound_gate(b: BoundModel, env: Map<Seq<u8>, u32>) -> bool {
    match eval_bits(b.expr, env) {
        Some(v) => cmp_holds(b.op, v, target_val(b.target)),
        None => false,
    }
}

/// The error one constraint contributes, in parts per billion: zero unless
/// it is a tolerance whose expression evaluates.
pub open spec fn bound_err(b: BoundModel, env: Map<Seq<u8>, u32>) -> int {
    if b.op is Tol {
        match eval_bits(b.expr, env) {
            Some(v) => tol_ppb_bits(target_val(b.target), v) as int,
            None => 0,
        }
    } else {
        0
    }
}

/// All constraints let the candidate through.
pub open spec fn gates_ok(bs: Seq<BoundModel>, env: Map<Seq<u8>, u32>) -> bool {
    forall|i: int| 0 <= i < bs.len() ==> bound_gate(bs[i], env)
}

/// The exact sum of the per-constraint errors.
pub open spec fn err_sum(bs: Seq<BoundModel>, env: Map<Seq<u8>, u32>) -> int
    decreases bs.len(),
{
    if bs.len() == 0 {
        0
    } else {
        err_sum(bs.drop_last(), env) + bound_err(bs.last(), env)
    }
}

/// Saturation of an error sum into a machine word.
pub open spec fn clamp64(x: int) -> u64 {
    if x > u64::MAX {
        u64::MAX
    } else if x < 0 {
        0
    } else {
        x as u64
    }
}

/// What a constraint list makes of one candidate's environment: nothing
/// when some comparison fails or some expression fails to evaluate, else
/// the saturated sum of the tolerance deviations.
pub open spec fn score_of(bs: Seq<BoundModel>, env: Map<Seq<u8>, u32>) -> Option<u64> {
    if gates_ok(bs, env) {
        Some(clamp64(err_sum(bs, env)))
    } else {
        None
    }
}

/// The decimal digits of `n`, most significant first.
pub open spec fn dec_bytes(n: nat) -> Seq<u8>
    decreases n,
{
    if n < 10 {
        seq![(48 + n) as u8]
    } else {
        dec_bytes(n / 10) + seq![(48 + n % 10) as u8]
    }
}

/// The name of slot `i`: the letter R followed by the decimal digits of `i`.
pub open spec fn rname(i: nat) -> Seq<u8> {
    seq![82u8] + dec_bytes(i)
}

/// The variable environment a candidate induces: slot `k` (1-based) binds
/// the name `R{k}` to the candidate's value there, in tenths.
pub open spec fn env_of(vals: Seq<u32>) -> Map<Seq<u8>, u32>
    decreases vals.len(),
{
    if vals.len() == 0 {
        Map::<Seq<u8>, u32>::empty()
    } else {
        env_of(vals.drop_last()).insert(rname(vals.len()), vals.last())
    }
}

/// Decimal digits are ASCII.
pub proof fn lemma_dec_bytes_ascii(n: nat)
    ensures
        forall|k: int| 0 <= k < dec_bytes(n).len() ==> 48 <= #[trigger] dec_bytes(n)[k] <= 57,
    decreases n,
{
    if n < 10 {
    } else {
        lemma_dec_bytes_ascii(n / 10);
        assert forall|k: int| 0 <= k < dec_bytes(n).len() implies 48 <= #[trigger] dec_bytes(n)[k]
            <= 57 by {
            if k < dec_bytes(n / 10).len() {
                assert(dec_bytes(n)[k] == dec_bytes(n / 10)[k]);
            } else {
                assert(dec_bytes(n)[k] == (48 + n % 10) as u8);
            }
        }
    }
}

/// Appends the decimal digits of `n`.
fn push_dec(v: &mut Vec<u8>, n: u64)
    ensures
        final(v)@ == old(v)@ + dec_bytes(n as nat),
    decreases n,
{
    if n < 10 {
        v.push(48 + n as u8);
        proof {
            assert(v@ =~= old(v)@ + dec_bytes(n as nat));
        }
    } else {
        push_dec(v, n / 10);
        v.push(48 + (n % 10) as u8);
        proof {
            assert(v@ =~= old(v)@ + dec_bytes(n as nat));
        }
    }
}

/// Builds the name of slot `i` as bytes.
fn slot_name(i: u64) -> (v: Vec<u8>)
    ensures
        v@ == rname(i as nat),
        forall|k: int| 0 <= k < v@.len() ==> #[trigger] v@[k] < 128,
{
    let mut v: Vec<u8> = Vec::new();
    v.push(82);
    push_dec(&mut v, i);
    proof {
        assert(v@ =~= rname(i as nat));
        lemma_dec_bytes_ascii(i as nat);
        assert forall|k: int| 0 <= k < v@.len() implies #[trigger] v@[k] < 128 by {
            if k > 0 {
                assert(v@[k] == dec_bytes(i as nat)[k - 1]);
            }
        }
    }
    v
}

/// One compiled constraint: an operator, a compiled expression and a
/// target.
#[derive(Debug)]
pub struct RBound {
    pub op: OpTok,
    pub expr: RExpr,
    pub target: RTarget,
}

impl RBound {
    /// The constraint's mathematical content.
    pub open spec fn model(&self) -> BoundModel {
        BoundModel { op: self.op, expr: self.expr.text(), target: self.target.text() }
    }

    /// The target text parses as a number.
    pub open spec fn wf(&self) -> bool {
        self.target.wf()
    }

    /// What parsing a constraint text yields: the text is split at its
    /// operator, then the left side must parse as an expression and the
    /// right side as a real-number literal.
    pub open spec fn parse_spec(s: Seq<u8>) -> Result<BoundModel, ParseError> {
        match find_op(s) {
            None => Err(ParseError::NoOperator),
            Some((op, i)) => {
                let l = split_at_op(s, op, i).0;
                let t = split_at_op(s, op, i).1;
                if !expr_parses(l) {
                    Err(ParseError::BadExpression)
                } else if f64_bits(t) is None {
                    Err(ParseError::BadNumber)
                } else {
                    Ok(BoundModel { op, expr: l, target: t })
                }
            },
        }
    }

    /// Parses one constraint text.
    pub fn parse(text: &str) -> (r: Result<RBound, ParseError>)
        ensures
            (match r {
                Ok(b) => b.wf() && Self::parse_spec(text.spec_bytes()) == Ok::<
                    BoundModel,
                    ParseError,
                >(b.model()),
                Err(e) => Self::parse_spec(text.spec_bytes()) == Err::<BoundModel, ParseError>(e),
            }),
    {
        let bytes: &[u8] = text.as_bytes();
        match split_bound(bytes) {
            None => Err(ParseError::NoOperator),
            Some((op, l, t)) => {
                proof {
                    let fi = (find_op(bytes@)->0).1;
                    crate::parse::lemma_trim_idempotent(bytes@.subrange(0, fi));
                }
                match parse_expr(l.as_slice()) {
                    None => Err(ParseError::BadExpression),
                    Some(e) => {
                        match RTarget::new(t) {
                            None => Err(ParseError::BadNumber),
                            Some(tg) => Ok(RBound { op, expr: e, target: tg }),
                        }
                    },
                }
            },
        }
    }
}

/// Builder struct used to accumulate constraints and compile them into a
/// scoring function for `RCalc::calc`.
#[derive(Debug)]
pub struct ROpBuilder {
    ops: Vec<RBound>,
}

impl ROpBuilder {
    #[verifier::type_invariant]
    spec fn inv(&self) -> bool {
        forall|i: int| 0 <= i < self.ops@.len() ==> (#[trigger] self.ops@[i]).wf()
    }

    /// The models of the constraints accumulated so far, in order.
    pub closed spec fn models(&self) -> Seq<BoundModel> {
        self.ops@.map_values(|b: RBound| b.model())
    }

    /// Init a new builder.
    pub fn new() -> (r: ROpBuilder)
        ensures
            r.models() =~= Seq::<BoundModel>::empty(),
    {
        let r = ROpBuilder { ops: Vec::new() };
        proof {
            assert(r.models() =~= Seq::<BoundModel>::empty());
        }
        r
    }

    /// Adds a new constraint to the builder. The text must be of the form
    /// `expr op target`; a malformed text is refused with the error naming
    /// what was expected.
    pub fn bound(self, text: &str) -> (r: Result<ROpBuilder, ParseError>)
        ensures
            (match r {
                Ok(b2) => RBound::parse_spec(text.spec_bytes()) matches Ok(m) && b2.models()
                    =~= self.models().push(m),
                Err(e) => RBound::parse_spec(text.spec_bytes()) == Err::<BoundModel, ParseError>(e),
            }),
    {
        proof {
            use_type_invariant(&self);
        }
        match RBound::parse(text) {
            Ok(b) => {
                let mut ops = self.ops;
                ops.push(b);
                let r = ROpBuilder { ops };
                proof {
                    assert(r.models() =~= self.models().push(b.model()));
                }
                Ok(r)
            },
            Err(e) => Err(e),
        }
    }

    /// Finishes the building and compiles the accumulated constraints into
    /// a scoring function suitable to be passed to `calc`.
    pub fn finish(self) -> (r: RScore)
        ensures
            r.models() == self.models(),
    {
        proof {
            use_type_invariant(&self);
        }
        RScore { ops: self.ops }
    }
}

/// A compiled constraint list: scores a candidate by gating on every
/// comparison and summing every tolerance deviation.
#[derive(Debug)]
pub struct RScore {
    ops: Vec<RBound>,
}

/// A scoring capability: anything that maps a candidate to nothing
/// (rejected) or to a non-negative composite error in parts per billion.
pub trait Scorer {
    /// The score as a mathematical function of the candidate's values.
    spec fn spec_score(&self, vals: Seq<u32>) -> Option<u64>;

    /// Computes the score.
    fn score(&self, rs: &RSet) -> (r: Option<u64>)
        ensures
            r == self.spec_score(rs@),
    ;
}

impl RScore {
    #[verifier::type_invariant]
    spec fn inv(&self) -> bool {
        forall|i: int| 0 <= i < self.ops@.len() ==> (#[trigger] self.ops@[i]).wf()
    }

    /// The models of the compiled constraints, in order.
    pub closed spec fn models(&self) -> Seq<BoundModel> {
        self.ops@.map_values(|b: RBound| b.model())
    }
}

impl Scorer for RScore {
    open spec fn spec_score(&self, vals: Seq<u32>) -> Option<u64> {
        score_of(self.models(), env_of(vals))
    }

    fn score(&self, rs: &RSet) -> (r: Option<u64>) {
        proof {
            use_type_invariant(self);
        }
        let n = rs.len();
        let mut c = ctx_new();
        proof {
            assert(crate::eval::ctx_vars(c) =~= env_of(rs@.take(0)));
        }
        let mut i: usize = 0;
        while i < n
            invariant
                n == rs@.len(),
                i <= n,
                crate::eval::ctx_vars(c) == env_of(rs@.take(i as int)),
            decreases n - i,
        {
            let name = slot_name((i + 1) as u64);
            let v = rs.r(i + 1);
            ctx_bind(&mut c, &name, v);
            proof {
                let pre = rs@.take(i as int);
                let post = rs@.take(i + 1);
                assert(post.drop_last() =~= pre);
                assert(post.last() == rs@[i as int]);
                assert(env_of(post) == env_of(pre).insert(rname((i + 1) as nat), rs@[i as int]));
            }
            i = i + 1;
        }
        proof {
            assert(rs@.take(n as int) =~= rs@);
        }
        let ghost env = env_of(rs@);
        let mut acc: u64 = 0;
        let mut j: usize = 0;
        while j < self.ops.len()
            invariant
                crate::eval::ctx_vars(c) == env,
                env == env_of(rs@),
                j <= self.ops@.len(),
                forall|q: int| 0 <= q < self.ops@.len() ==> (#[trigger] self.ops@[q]).wf(),
                gates_ok(self.models().take(j as int), env),
                acc == clamp64(err_sum(self.models().take(j as int), env)),
            decreases self.ops@.len() - j,
        {
            let b = &self.ops[j];
            proof {
                assert((self.ops@[j as int]).wf());
                assert(self.models()[j as int] == self.ops@[j as int].model());
                assert(self.models().take(j + 1).drop_last() =~= self.models().take(j as int));
                assert(self.models().take(j + 1).last() == self.models()[j as int]);
                lemma_err_sum_nonneg(self.models().take(j as int), env);
            }
            let gate: Option<bool> = match b.op {
                OpTok::Le => eval_le(&b.expr, &c, &b.target),
                OpTok::Ge => eval_ge(&b.expr, &c, &b.target),
                OpTok::Lt => eval_lt(&b.expr, &c, &b.target),
                OpTok::Gt => eval_gt(&b.expr, &c, &b.target),
                OpTok::EqEps => eval_eq(&b.expr, &c, &b.target),
                OpTok::NeEps => eval_ne(&b.expr, &c, &b.target),
                OpTok::Tol => {
                    match eval_tol(&b.expr, &c, &b.target) {
                        None => None,
                        Some(t) => {
                            acc = match acc.checked_add(t) {
                                Some(s) => s,
                                None => u64::MAX,
                            };
                            Some(true)
                        },
                    }
                },
            };
            match gate {
                Some(true) => {},
                _ => {
                    proof {
                        assert(!bound_gate(self.models()[j as int], env));
                        assert(!gates_ok(self.models(), env));
                    }
                    return None;
                },
            }
            proof {
                assert(bound_gate(self.models()[j as int], env));
                assert forall|q: int| 0 <= q < j + 1 implies bound_gate(
                    #[trigger] self.models().take(j + 1)[q],
                    env,
                ) by {
                    if q < j {
                        assert(self.models().take(j + 1)[q] == self.models().take(j as int)[q]);
                    }
                }
            }
            j = j + 1;
        }
        proof {
            assert(self.models().take(self.models().len() as int) =~= self.models());
        }
        Some(acc)
    }
}

/// Every constraint contributes a non-negative error.
pub proof fn lemma_err_sum_nonneg(bs: Seq<BoundModel>, env: Map<Seq<u8>, u32>)
    ensures
        0 <= err_sum(bs, env),
    decreases bs.len(),
{
    if bs.len() == 0 {
    } else {
        lemma_err_sum_nonneg(bs.drop_last(), env);
    }
}

/// How many of the candidates a constraint list accepts.
pub open spec fn accepted_count(bs: Seq<BoundModel>, cands: Seq<Seq<u32>>) -> int
    decreases cands.len(),
{
    if cands.len() == 0 {
        0
    } else {
        accepted_count(bs, cands.drop_first()) + (if score_of(bs, env_of(cands[0])) is Some {
            1int
        } else {
            0int
        })
    }
}

/// A candidate that passes a constraint list also passes it with any
/// constraint taken away: on one candidate, adding a comparison can only
/// move it from accepted to rejected, never the other way.
pub proof fn lemma_extra_bound_rejects_more(bs: Seq<BoundModel>, extra: BoundModel, env: Map<
    Seq<u8>,
    u32,
>)
    ensures
        score_of(bs.push(extra), env) is Some ==> score_of(bs, env) is Some,
{
    if gates_ok(bs.push(extra), env) {
        assert forall|i: int| 0 <= i < bs.len() implies bound_gate(#[trigger] bs[i], env) by {
            assert(bs.push(extra)[i] == bs[i]);
        }
    }
}

/// Adding a further constraint to a fixed constraint list never increases
/// the number of accepted candidates.
pub proof fn lemma_rejection_monotonic(bs: Seq<BoundModel>, extra: BoundModel, cands: Seq<
    Seq<u32>,
>)
    ensures
        accepted_count(bs.push(extra), cands) <= accepted_count(bs, cands),
    decreases cands.len(),
{
    if cands.len() == 0 {
    } else {
        lemma_rejection_monotonic(bs, extra, cands.drop_first());
        lemma_extra_bound_rejects_more(bs, extra, env_of(cands[0]));
    }
}

/// Taking one constraint out splits the error sum exactly.
proof fn lemma_err_sum_remove(s: Seq<BoundModel>, j: int, env: Map<Seq<u8>, u32>)
    requires
        0 <= j < s.len(),
    ensures
        err_sum(s, env) == err_sum(s.remove(j), env) + bound_err(s[j], env),
    decreases s.len(),
{
    if j == s.len() - 1 {
        assert(s.remove(j) =~= s.drop_last());
    } else {
        assert(s.drop_last().remove(j) =~= s.remove(j).drop_last());
        assert(s.remove(j).last() == s.last());
        lemma_err_sum_remove(s.drop_last(), j, env);
    }
}

/// The combined error of a constraint list is the exact sum of each
/// constraint's individual contribution, independent of declaration
/// order: two lists holding the same constraints in any order give equal
/// error sums.
pub proof fn lemma_err_sum_permutation(a: Seq<BoundModel>, b: Seq<BoundModel>, env: Map<
    Seq<u8>,
    u32,
>)
    requires
        a.to_multiset() == b.to_multiset(),
    ensures
        err_sum(a, env) == err_sum(b, env),
    decreases b.len(),
{
    broadcast use vstd::seq_lib::group_to_multiset_ensures;

    if b.len() == 0 {
        assert(a.len() == a.to_multiset().len());
    } else {
        let x = b.last();
        assert(b.contains(x));
        assert(b.to_multiset().count(x) > 0);
        assert(a.to_multiset().count(x) > 0);
        assert(a.contains(x));
        let j = choose|j: int| 0 <= j < a.len() && a[j] == x;
        assert(b.drop_last() =~= b.remove(b.len() - 1));
        assert(a.remove(j).to_multiset() =~= a.to_multiset().remove(x));
        assert(b.remove(b.len() - 1).to_multiset() =~= b.to_multiset().remove(x));
        lemma_err_sum_permutation(a.remove(j), b.drop_last(), env);
        lemma_err_sum_remove(a, j, env);
    }
}

/// Concatenating two constraint lists adds their error sums: the combined
/// error of several tolerances is the exact sum of what each contributes
/// on its own.
pub proof fn lemma_err_sum_concat(a: Seq<BoundModel>, b: Seq<BoundModel>, env: Map<Seq<u8>, u32>)
    ensures
        err_sum(a + b, env) == err_sum(a, env) + err_sum(b, env),
    decreases b.len(),
{
    if b.len() == 0 {
        assert(a + b =~= a);
    } else {
        assert((a + b).drop_last() =~= a + b.drop_last());
        assert((a + b).last() == b.last());
        lemma_err_sum_concat(a, b.drop_last(), env);
    }
}

/// Constraint declaration order does not matter at all: two lists holding
/// the same constraints in any order accept the same candidates, with the
/// same composite error.
pub proof fn lemma_score_permutation(a: Seq<BoundModel>, b: Seq<BoundModel>, env: Map<
    Seq<u8>,
    u32,
>)
    requires
        a.to_multiset() == b.to_multiset(),
    ensures
        score_of(a, env) == score_of(b, env),
{
    broadcast use vstd::seq_lib::group_to_multiset_ensures;

    assert forall|s1: Seq<BoundModel>, s2: Seq<BoundModel>|
        s1.to_multiset() == s2.to_multiset() && gates_ok(s1, env) implies gates_ok(s2, env) by {
        assert forall|i: int| 0 <= i < s2.len() implies bound_gate(#[trigger] s2[i], env) by {
            assert(s2.contains(s2[i]));
            assert(s2.to_multiset().count(s2[i]) > 0);
            assert(s1.to_multiset().count(s2[i]) > 0);
            assert(s1.contains(s2[i]));
            let j = choose|j: int| 0 <= j < s1.len() && s1[j] == s2[i];
            assert(bound_gate(s1[j], env));
        }
    }
    lemma_err_sum_permutation(a, b, env);
}

} // verus!
