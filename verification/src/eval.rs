//! The trusted boundary to the arithmetic expression evaluator (the `meval`
//! crate) and to 64-bit floating-point arithmetic.
//!
//! Values cross this boundary only as plain integers: resistor magnitudes as
//! tenths of an ohm, evaluation results and targets by the names below.
//! Each name stands for the result of one outside operation, a function of
//! its arguments alone; nothing in the library pins what a name evaluates
//! to, so every proof built on it holds whatever the evaluator returns.

use vstd::prelude::*;

verus! {

#[verifier::external_type_specification]
#[verifier::external_body]
pub struct ExToken(meval::tokenizer::Token);

#[verifier::external_type_specification]
#[verifier::external_body]
pub struct ExExpr(meval::Expr);

#[verifier::external_type_specification]
#[verifier::external_body]
pub struct ExContext<'a>(meval::Context<'a>);

/// Whether `meval` parses the text as an arithmetic expression.
pub uninterp spec fn expr_parses(text: Seq<u8>) -> bool;

/// The 64-bit float the text parses as (its IEEE-754 bit pattern), or
/// nothing when the text is not a well-formed real-number literal.
pub uninterp spec fn f64_bits(text: Seq<u8>) -> Option<u64>;

/// The slot bindings a context holds: variable name bytes to the bound
/// magnitude in tenths of an ohm.
pub uninterp spec fn ctx_vars(c: meval::Context<'static>) -> Map<Seq<u8>, u32>;

/// The IEEE-754 bit pattern of evaluating the expression `src` in a context
/// that binds exactly the variables of `env`, each to its magnitude scaled
/// from tenths to base units, beside the evaluator's built-in constants and
/// functions; nothing when evaluation fails (for instance on an unbound
/// variable).
pub uninterp spec fn eval_bits(src: Seq<u8>, env: Map<Seq<u8>, u32>) -> Option<u64>;

/// The 64-bit float comparison `a <= b` on two bit patterns.
pub uninterp spec fn le_bits(a: u64, b: u64) -> bool;

/// The 64-bit float comparison `a < b` on two bit patterns.
pub uninterp spec fn lt_bits(a: u64, b: u64) -> bool;

/// Whether the two 64-bit floats differ by less than the machine epsilon of
/// 64-bit floats: `|a - b| < EPSILON`.
pub uninterp spec fn eq_eps_bits(a: u64, b: u64) -> bool;

/// Whether the two 64-bit floats differ by more than the machine epsilon of
/// 64-bit floats: `|a - b| > EPSILON`.
pub uninterp spec fn ne_eps_bits(a: u64, b: u64) -> bool;

/// The quantized deviation `round(|target - val| * 1e9)` of two 64-bit
/// floats given by their bit patterns, saturated to u64: the deviation in
/// integer parts per billion.
pub uninterp spec fn tol_ppb_bits(target: u64, val: u64) -> u64;

/// A compiled arithmetic expression: the evaluator's parsed form, together
/// with the text it was parsed from.
#[derive(Debug)]
pub struct RExpr {
    inner: meval::Expr,
    src: Vec<u8>,
}

impl RExpr {
    /// The text the expression was parsed from.
    pub closed spec fn text(&self) -> Seq<u8> {
        self.src@
    }
}

/// A constraint target: the text of a real-number literal, kept as written
/// and re-read at each evaluation.
#[derive(Debug)]
pub struct RTarget {
    text: Vec<u8>,
}

impl RTarget {
    /// The target's text.
    pub closed spec fn text(&self) -> Seq<u8> {
        self.text@
    }

    /// The target's text is a well-formed real-number literal.
    pub open spec fn wf(&self) -> bool {
        f64_bits(self.text()) is Some
    }

    /// The bit pattern of the target's value.
    pub open spec fn bits(&self) -> u64 {
        f64_bits(self.text())->0
    }

    /// Checks the text and wraps it as a target.
    pub fn new(text: Vec<u8>) -> (r: Option<RTarget>)
        ensures
            r matches Some(t) ==> t.wf() && t.text() == text@,
            r is None ==> f64_bits(text@) is None,
    {
        if target_parses(&text) {
            Some(RTarget { text })
        } else {
            None
        }
    }
}

/// Relies on `meval`'s expression parser (`str::parse::<meval::Expr>`):
/// whether the text parses is a function of the text alone, and the wrapped
/// result keeps the text it was parsed from. The text must carry no
/// surrounding whitespace: on a non-empty text of only whitespace the
/// parser's tokenizer panics, so those inputs are left out.
#[verifier::external_body]
pub(crate) fn parse_expr(text: &[u8]) -> (r: Option<RExpr>)
    requires
        text@ == crate::parse::trim(text@),
    ensures
        r is Some <==> expr_parses(text@),
        r matches Some(e) ==> e.text() == text@,
{
    let s = match core::str::from_utf8(text) {
        Ok(s) => s,
        Err(_) => return None,
    };
    match s.parse() {
        Ok(inner) => Some(RExpr { inner, src: text.to_vec() }),
        Err(_) => None,
    }
}

/// Relies on the standard 64-bit float `FromStr`: whether the text is a
/// well-formed real-number literal is a function of the text alone. The
/// discarded context binding only fixes the type the text is parsed as.
#[verifier::external_body]
fn target_parses(text: &Vec<u8>) -> (r: bool)
    ensures
        r == (f64_bits(text@) is Some),
{
    let s = match core::str::from_utf8(text) {
        Ok(s) => s,
        Err(_) => return false,
    };
    match s.parse() {
        Ok(v) => {
            let mut pin = meval::Context::new();
            pin.var("t", v);
            true
        },
        Err(_) => false,
    }
}

/// An evaluation context that owns its function table.
pub type EvalCtx = meval::Context<'static>;

/// Relies on `meval::Context::new`: a fresh context holds the evaluator's
/// built-in constants and functions and no slot bindings.
#[verifier::external_body]
pub(crate) fn ctx_new() -> (c: EvalCtx)
    ensures
        forall|k: Seq<u8>| !ctx_vars(c).dom().contains(k),
{
    meval::Context::new()
}

/// Relies on `meval::Context::var`, with `meval::eval_str` computing the
/// scale: binds the variable named by the ASCII bytes of `name` to the
/// value `deci`/10 - the magnitude scaled from tenths to base units -
/// overwriting any earlier binding of the same name. The name must start
/// with the letter R: that keeps the slot namespace apart from the
/// evaluator's built-in constants, which live in the same variable table.
#[verifier::external_body]
pub(crate) fn ctx_bind(c: &mut EvalCtx, name: &Vec<u8>, deci: u32)
    requires
        name@.len() >= 1,
        name@[0] == 82,
        forall|i: int| 0 <= i < name@.len() ==> name@[i] < 128,
    ensures
        ctx_vars(*final(c)) == ctx_vars(*old(c)).insert(name@, deci),
{
    let var = match core::str::from_utf8(name) {
        Ok(s) => s,
        Err(_) => return ,
    };
    let val = match meval::eval_str(format!("{}/10", deci)) {
        Ok(v) => v,
        Err(_) => return ,
    };
    c.var(var, val);
}

/// Relies on `meval::Expr::eval_with_context` and the 64-bit float `<=`:
/// evaluates the expression under the context, re-reads the target, and
/// compares. Nothing comes back when evaluation fails.
#[verifier::external_body]
pub(crate) fn eval_le(e: &RExpr, c: &EvalCtx, t: &RTarget) -> (r: Option<bool>)
    requires
        t.wf(),
    ensures
        r == (match eval_bits(e.text(), ctx_vars(*c)) {
            Some(v) => Some(le_bits(v, t.bits())),
            None => None::<bool>,
        }),
{
    let v = e.inner.eval_with_context(c).ok()?;
    let s = core::str::from_utf8(&t.text).ok()?;
    let tv = s.parse().ok()?;
    Some(v <= tv)
}

/// Relies on `meval::Expr::eval_with_context` and the 64-bit float `<`:
/// evaluates the expression under the context, re-reads the target, and
/// compares. Nothing comes back when evaluation fails.
#[verifier::external_body]
pub(crate) fn eval_lt(e: &RExpr, c: &EvalCtx, t: &RTarget) -> (r: Option<bool>)
    requires
        t.wf(),
    ensures
        r == (match eval_bits(e.text(), ctx_vars(*c)) {
            Some(v) => Some(lt_bits(v, t.bits())),
            None => None::<bool>,
        }),
{
    let v = e.inner.eval_with_context(c).ok()?;
    let s = core::str::from_utf8(&t.text).ok()?;
    let tv = s.parse().ok()?;
    Some(v < tv)
}

/// Relies on `meval::Expr::eval_with_context` and the 64-bit float `>=`:
/// evaluates the expression under the context, re-reads the target, and
/// compares; `v >= t` is stated as `t <= v`, the same predicate for the
/// standard partial order on floats. Nothing comes back when evaluation
/// fails.
#[verifier::external_body]
pub(crate) fn eval_ge(e: &RExpr, c: &EvalCtx, t: &RTarget) -> (r: Option<bool>)
    requires
        t.wf(),
    ensures
        r == (match eval_bits(e.text(), ctx_vars(*c)) {
            Some(v) => Some(le_bits(t.bits(), v)),
            None => None::<bool>,
        }),
{
    let v = e.inner.eval_with_context(c).ok()?;
    let s = core::str::from_utf8(&t.text).ok()?;
    let tv = s.parse().ok()?;
    Some(v >= tv)
}

/// Relies on `meval::Expr::eval_with_context` and the 64-bit float `>`:
/// evaluates the expression under the context, re-reads the target, and
/// compares; `v > t` is stated as `t < v`, the same predicate for the
/// standard partial order on floats. Nothing comes back when evaluation
/// fails.
#[verifier::external_body]
pub(crate) fn eval_gt(e: &RExpr, c: &EvalCtx, t: &RTarget) -> (r: Option<bool>)
    requires
        t.wf(),
    ensures
        r == (match eval_bits(e.text(), ctx_vars(*c)) {
            Some(v) => Some(lt_bits(t.bits(), v)),
            None => None::<bool>,
        }),
{
    let v = e.inner.eval_with_context(c).ok()?;
    let s = core::str::from_utf8(&t.text).ok()?;
    let tv = s.parse().ok()?;
    Some(v > tv)
}

/// Relies on `meval::Expr::eval_with_context`, 64-bit float subtraction
/// and `<`: the magnitude of the difference (the smaller value subtracted
/// from the larger) is compared against the machine epsilon of 64-bit
/// floats, and the pair is accepted when it differs by less (the literal
/// below is exactly that epsilon, 2^-52). Nothing comes back when
/// evaluation fails.
#[verifier::external_body]
pub(crate) fn eval_eq(e: &RExpr, c: &EvalCtx, t: &RTarget) -> (r: Option<bool>)
    requires
        t.wf(),
    ensures
        r == (match eval_bits(e.text(), ctx_vars(*c)) {
            Some(v) => Some(eq_eps_bits(v, t.bits())),
            None => None::<bool>,
        }),
{
    let v = e.inner.eval_with_context(c).ok()?;
    let s = core::str::from_utf8(&t.text).ok()?;
    let tv = s.parse().ok()?;
    let below = v < tv;
    let d = if below { tv - v } else { v - tv };
    let eps = "2.220446049250313e-16".parse().ok()?;
    Some(d < eps)
}

/// Relies on `meval::Expr::eval_with_context`, 64-bit float subtraction
/// and `>`: the magnitude of the difference (the smaller value subtracted
/// from the larger) is compared against the machine epsilon of 64-bit
/// floats, and the pair is accepted when it differs by more (the literal
/// below is exactly that epsilon, 2^-52). Nothing comes back when
/// evaluation fails.
#[verifier::external_body]
pub(crate) fn eval_ne(e: &RExpr, c: &EvalCtx, t: &RTarget) -> (r: Option<bool>)
    requires
        t.wf(),
    ensures
        r == (match eval_bits(e.text(), ctx_vars(*c)) {
            Some(v) => Some(ne_eps_bits(v, t.bits())),
            None => None::<bool>,
        }),
{
    let v = e.inner.eval_with_context(c).ok()?;
    let s = core::str::from_utf8(&t.text).ok()?;
    let tv = s.parse().ok()?;
    let below = v < tv;
    let d = if below { tv - v } else { v - tv };
    let eps = "2.220446049250313e-16".parse().ok()?;
    Some(d > eps)
}

/// Relies on `meval::Expr::eval_with_context`, 64-bit float subtraction,
/// scaling by 1e9 (computed by `meval::eval_str`) and rounding to the
/// nearest integer: the magnitude of the deviation of the value from the
/// target (the smaller subtracted from the larger), in parts per billion,
/// saturated to u64. Nothing comes back when evaluation fails.
#[verifier::external_body]
pub(crate) fn eval_tol(e: &RExpr, c: &EvalCtx, t: &RTarget) -> (r: Option<u64>)
    requires
        t.wf(),
    ensures
        r == (match eval_bits(e.text(), ctx_vars(*c)) {
            Some(v) => Some(tol_ppb_bits(t.bits(), v)),
            None => None::<u64>,
        }),
{
    let v = e.inner.eval_with_context(c).ok()?;
    let s = core::str::from_utf8(&t.text).ok()?;
    let tv = s.parse().ok()?;
    let below = v < tv;
    let d = if below { tv - v } else { v - tv };
    let billion = meval::eval_str("1000000000").ok()?;
    Some((d * billion).round() as u64)
}

} // verus!
