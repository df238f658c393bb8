//! Textual splitting of a constraint specification.
//!
//! A constraint is written `expr op target`. The operator is searched for in
//! a fixed precedence order - the two-character operators `<=`, `>=`, `==`,
//! `!=` before their one-character prefixes `<`, `>`, and the tolerance
//! marker `~` last - and the text is split at the first occurrence of the
//! matched token. Both sides are trimmed of surrounding whitespace.

use vstd::prelude::*;

verus! {

/// The operator tokens a constraint may use, each a hard comparison gate
/// except `Tol`, which accumulates error.
#[derive(Clone, Copy, Debug, PartialEq, Eq, Structural)]
pub enum OpTok {
    /// `<=`
    Le,
    /// `>=`
    Ge,
    /// `==`, equal within machine epsilon
    EqEps,
    /// `!=`, apart by more than machine epsilon
    NeEps,
    /// `<`
    Lt,
    /// `>`
    Gt,
    /// `~`, tolerance: contributes |value - target| to the error
    Tol,
}

/// The byte sequence a token is written as.
pub open spec fn op_bytes(op: OpTok) -> Seq<u8> {
    match op {
        OpTok::Le => seq![60u8, 61u8],  // "<="
        OpTok::Ge => seq![62u8, 61u8],  // ">="
        OpTok::EqEps => seq![61u8, 61u8],  // "=="
        OpTok::NeEps => seq![33u8, 61u8],  // "!="
        OpTok::Lt => seq![60u8],  // "<"
        OpTok::Gt => seq![62u8],  // ">"
        OpTok::Tol => seq![126u8],  // "~"
    }
}

/// `pat` occurs in `s` at position `i`.
pub open spec fn matches_at(s: Seq<u8>, pat: Seq<u8>, i: int) -> bool {
    &&& 0 <= i
    &&& i + pat.len() <= s.len()
    &&& s.subrange(i, i + pat.len() as int) == pat
}

/// Position of the first occurrence of `pat` in `s`, if any.
pub open spec fn first_match(s: Seq<u8>, pat: Seq<u8>) -> Option<int>
    decreases s.len(),
{
    if matches_at(s, pat, 0) {
        Some(0)
    } else if s.len() == 0 {
        None
    } else {
        match first_match(s.drop_first(), pat) {
            Some(i) => Some(i + 1),
            None => None,
        }
    }
}

/// Occurrences shift by one when the first byte is dropped.
proof fn lemma_matches_at_shift(s: Seq<u8>, pat: Seq<u8>, j: int)
    requires
        s.len() > 0,
        0 <= j,
    ensures
        matches_at(s, pat, j + 1) <==> matches_at(s.drop_first(), pat, j),
{
    if j + 1 + pat.len() <= s.len() {
        assert(s.subrange(j + 1, j + 1 + pat.len() as int) =~= s.drop_first().subrange(
            j,
            j + pat.len() as int,
        ));
    }
}

/// `first_match` returns exactly the least position that matches.
pub proof fn lemma_first_match_is(s: Seq<u8>, pat: Seq<u8>, i: int)
    requires
        matches_at(s, pat, i),
        forall|j: int| 0 <= j < i ==> !matches_at(s, pat, j),
    ensures
        first_match(s, pat) == Some(i),
    decreases i,
{
    if i == 0 {
    } else {
        assert(!matches_at(s, pat, 0));
        lemma_matches_at_shift(s, pat, i - 1);
        assert forall|j: int| 0 <= j < i - 1 implies !matches_at(s.drop_first(), pat, j) by {
            lemma_matches_at_shift(s, pat, j);
        }
        lemma_first_match_is(s.drop_first(), pat, i - 1);
    }
}

/// `first_match` finds nothing when no position matches.
pub proof fn lemma_first_match_absent(s: Seq<u8>, pat: Seq<u8>)
    requires
        forall|j: int| !matches_at(s, pat, j),
    ensures
        first_match(s, pat) is None,
    decreases s.len(),
{
    if s.len() == 0 {
    } else {
        assert forall|j: int| !matches_at(s.drop_first(), pat, j) by {
            if 0 <= j {
                lemma_matches_at_shift(s, pat, j);
            }
        }
        lemma_first_match_absent(s.drop_first(), pat);
    }
}

/// What a `first_match` result means: a found position matches and is the
/// least one; absence means no position matches.
pub proof fn lemma_first_match_props(s: Seq<u8>, pat: Seq<u8>)
    ensures
        match first_match(s, pat) {
            Some(i) => matches_at(s, pat, i) && forall|j: int| 0 <= j < i ==> !matches_at(s, pat, j),
            None => forall|j: int| !matches_at(s, pat, j),
        },
    decreases s.len(),
{
    if matches_at(s, pat, 0) {
    } else if s.len() == 0 {
        assert forall|j: int| !matches_at(s, pat, j) by {
            if 0 <= j && j + pat.len() <= s.len() {
                assert(s.subrange(j, j + pat.len() as int).len() == pat.len());
            }
        }
    } else {
        lemma_first_match_props(s.drop_first(), pat);
        match first_match(s.drop_first(), pat) {
            Some(i) => {
                lemma_matches_at_shift(s, pat, i);
                assert forall|j: int| 0 <= j < i + 1 implies !matches_at(s, pat, j) by {
                    if j > 0 {
                        lemma_matches_at_shift(s, pat, j - 1);
                    }
                }
            },
            None => {
                assert forall|j: int| !matches_at(s, pat, j) by {
                    if j > 0 {
                        lemma_matches_at_shift(s, pat, j - 1);
                    }
                }
            },
        }
    }
}

/// A byte of ASCII whitespace.
pub open spec fn is_ws(b: u8) -> bool {
    b == 32 || (9 <= b <= 13)
}

/// `s` with leading whitespace removed.
pub open spec fn ltrim(s: Seq<u8>) -> Seq<u8>
    decreases s.len(),
{
    if s.len() > 0 && is_ws(s[0]) {
        ltrim(s.drop_first())
    } else {
        s
    }
}

/// `s` with trailing whitespace removed.
pub open spec fn rtrim(s: Seq<u8>) -> Seq<u8>
    decreases s.len(),
{
    if s.len() > 0 && is_ws(s.last()) {
        rtrim(s.drop_last())
    } else {
        s
    }
}

/// `s` with surrounding whitespace removed.
pub open spec fn trim(s: Seq<u8>) -> Seq<u8> {
    rtrim(ltrim(s))
}

/// `ltrim` leaves no leading whitespace.
proof fn lemma_ltrim_no_leading(s: Seq<u8>)
    ensures
        ltrim(s).len() == 0 || !is_ws(ltrim(s)[0]),
    decreases s.len(),
{
    if s.len() > 0 && is_ws(s[0]) {
        lemma_ltrim_no_leading(s.drop_first());
    }
}

/// `rtrim` leaves no trailing whitespace.
proof fn lemma_rtrim_no_trailing(s: Seq<u8>)
    ensures
        rtrim(s).len() == 0 || !is_ws(rtrim(s).last()),
    decreases s.len(),
{
    if s.len() > 0 && is_ws(s.last()) {
        lemma_rtrim_no_trailing(s.drop_last());
    }
}

/// `rtrim` keeps a prefix of its input.
proof fn lemma_rtrim_prefix(s: Seq<u8>)
    ensures
        rtrim(s).len() <= s.len(),
        forall|i: int| 0 <= i < rtrim(s).len() ==> rtrim(s)[i] == s[i],
    decreases s.len(),
{
    if s.len() > 0 && is_ws(s.last()) {
        lemma_rtrim_prefix(s.drop_last());
        assert forall|i: int| 0 <= i < rtrim(s).len() implies rtrim(s)[i] == s[i] by {
            assert(rtrim(s)[i] == rtrim(s.drop_last())[i]);
            assert(s.drop_last()[i] == s[i]);
        }
    }
}

/// A trimmed text trims to itself.
pub proof fn lemma_trim_idempotent(s: Seq<u8>)
    ensures
        trim(trim(s)) == trim(s),
{
    let l = ltrim(s);
    let t = rtrim(l);
    lemma_ltrim_no_leading(s);
    lemma_rtrim_prefix(l);
    lemma_rtrim_no_trailing(l);
    if t.len() > 0 {
        assert(t[0] == l[0]);
    }
    assert(ltrim(t) == t);
    assert(rtrim(t) == t);
}

/// The operator the constraint text selects: the first token of the
/// precedence order that occurs anywhere in the text, at its first
/// occurrence.
pub open spec fn find_op(s: Seq<u8>) -> Option<(OpTok, int)> {
    if first_match(s, op_bytes(OpTok::Le)) is Some {
        Some((OpTok::Le, first_match(s, op_bytes(OpTok::Le))->0))
    } else if first_match(s, op_bytes(OpTok::Ge)) is Some {
        Some((OpTok::Ge, first_match(s, op_bytes(OpTok::Ge))->0))
    } else if first_match(s, op_bytes(OpTok::EqEps)) is Some {
        Some((OpTok::EqEps, first_match(s, op_bytes(OpTok::EqEps))->0))
    } else if first_match(s, op_bytes(OpTok::NeEps)) is Some {
        Some((OpTok::NeEps, first_match(s, op_bytes(OpTok::NeEps))->0))
    } else if first_match(s, op_bytes(OpTok::Lt)) is Some {
        Some((OpTok::Lt, first_match(s, op_bytes(OpTok::Lt))->0))
    } else if first_match(s, op_bytes(OpTok::Gt)) is Some {
        Some((OpTok::Gt, first_match(s, op_bytes(OpTok::Gt))->0))
    } else if first_match(s, op_bytes(OpTok::Tol)) is Some {
        Some((OpTok::Tol, first_match(s, op_bytes(OpTok::Tol))->0))
    } else {
        None
    }
}

/// The two sides of the split: left of the operator and right of it, both
/// trimmed.
pub open spec fn split_at_op(s: Seq<u8>, op: OpTok, i: int) -> (Seq<u8>, Seq<u8>) {
    (trim(s.subrange(0, i)), trim(s.subrange(i + op_bytes(op).len() as int, s.len() as int)))
}

/// Whitespace test on a byte.
fn is_ws_byte(b: u8) -> (r: bool)
    ensures
        r == is_ws(b),
{
    b == 32 || (9 <= b && b <= 13)
}

/// Finds the first occurrence of `pat` in `s`.
fn find_first(s: &[u8], pat: &Vec<u8>) -> (r: Option<usize>)
    requires
        pat@.len() >= 1,
    ensures
        match r {
            Some(i) => first_match(s@, pat@) == Some(i as int),
            None => first_match(s@, pat@) is None,
        },
{
    let n = s.len();
    if pat.len() > n {
        proof {
            lemma_first_match_absent(s@, pat@);
        }
        return None;
    }
    let mut i: usize = 0;
    while i <= s.len() - pat.len()
        invariant
            n == s@.len(),
            pat@.len() >= 1,
            pat@.len() <= s@.len(),
            i <= s@.len(),
            forall|j: int| 0 <= j < i ==> !matches_at(s@, pat@, j),
        decreases s@.len() - i,
    {
        proof {
            assert(i + pat@.len() <= s@.len());
        }
        let mut k: usize = 0;
        let mut all: bool = true;
        while k < pat.len()
            invariant
                n == s@.len(),
                i + pat@.len() <= s@.len(),
                k <= pat@.len(),
                all <==> (forall|q: int| 0 <= q < k ==> s@[i + q] == pat@[q]),
            decreases pat@.len() - k,
        {
            if s[i + k] != pat[k] {
                all = false;
            }
            k = k + 1;
        }
        if all {
            proof {
                assert(s@.subrange(i as int, i + pat@.len() as int) =~= pat@);
                lemma_first_match_is(s@, pat@, i as int);
            }
            return Some(i);
        }
        proof {
            assert(!matches_at(s@, pat@, i as int)) by {
                if matches_at(s@, pat@, i as int) {
                    let q = choose|q: int|
                        0 <= q < pat@.len() && s@[i + q] != pat@[q];
                    assert(s@.subrange(i as int, i + pat@.len() as int)[q] == pat@[q]);
                }
            }
        }
        i = i + 1;
    }
    proof {
        assert forall|j: int| !matches_at(s@, pat@, j) by {
            if j >= i {
                assert(j + pat@.len() > s@.len());
            }
        }
        lemma_first_match_absent(s@, pat@);
    }
    None
}

/// Copies `s[from..to]` out, with surrounding whitespace removed.
fn trimmed_piece(s: &[u8], from: usize, to: usize) -> (v: Vec<u8>)
    requires
        from <= to <= s@.len(),
    ensures
        v@ == trim(s@.subrange(from as int, to as int)),
{
    let ghost orig = s@.subrange(from as int, to as int);
    let mut lo = from;
    while lo < to && is_ws_byte(s[lo])
        invariant
            from <= lo <= to <= s@.len(),
            ltrim(orig) == ltrim(s@.subrange(lo as int, to as int)),
        decreases to - lo,
    {
        proof {
            let cur = s@.subrange(lo as int, to as int);
            assert(cur.drop_first() =~= s@.subrange(lo + 1, to as int));
        }
        lo = lo + 1;
    }
    proof {
        let cur = s@.subrange(lo as int, to as int);
        if lo < to {
            assert(cur[0] == s@[lo as int]);
        }
        assert(ltrim(cur) == cur);
    }
    let mut hi = to;
    while hi > lo && is_ws_byte(s[hi - 1])
        invariant
            from <= lo <= hi <= to <= s@.len(),
            ltrim(orig) == s@.subrange(lo as int, to as int),
            rtrim(s@.subrange(lo as int, to as int)) == rtrim(s@.subrange(lo as int, hi as int)),
        decreases hi - lo,
    {
        proof {
            let cur = s@.subrange(lo as int, hi as int);
            assert(cur.drop_last() =~= s@.subrange(lo as int, hi - 1));
        }
        hi = hi - 1;
    }
    proof {
        let cur = s@.subrange(lo as int, hi as int);
        if hi > lo {
            assert(cur.last() == s@[hi - 1]);
        }
        assert(rtrim(cur) == cur);
    }
    let mut v: Vec<u8> = Vec::new();
    let mut j = lo;
    while j < hi
        invariant
            lo <= j <= hi <= s@.len(),
            v@ =~= s@.subrange(lo as int, j as int),
        decreases hi - j,
    {
        v.push(s[j]);
        proof {
            assert(v@ =~= s@.subrange(lo as int, j + 1));
        }
        j = j + 1;
    }
    proof {
        assert(v@ =~= s@.subrange(lo as int, hi as int));
    }
    v
}

/// The exec byte sequence of an operator token.
fn op_pattern(op: OpTok) -> (v: Vec<u8>)
    ensures
        v@ == op_bytes(op),
        v@.len() >= 1,
{
    let mut v: Vec<u8> = Vec::new();
    match op {
        OpTok::Le => {
            v.push(60);
            v.push(61);
        },
        OpTok::Ge => {
            v.push(62);
            v.push(61);
        },
        OpTok::EqEps => {
            v.push(61);
            v.push(61);
        },
        OpTok::NeEps => {
            v.push(33);
            v.push(61);
        },
        OpTok::Lt => {
            v.push(60);
        },
        OpTok::Gt => {
            v.push(62);
        },
        OpTok::Tol => {
            v.push(126);
        },
    }
    proof {
        assert(v@ =~= op_bytes(op));
    }
    v
}

/// Splits a constraint text at its operator: the first token of the
/// precedence order that occurs, at its first occurrence. Returns the
/// operator and the trimmed left and right sides, or nothing when no
/// operator occurs.
pub fn split_bound(s: &[u8]) -> (r: Option<(OpTok, Vec<u8>, Vec<u8>)>)
    ensures
        match r {
            Some((op, l, t)) => {
                &&& find_op(s@) matches Some((fop, fi)) && fop == op && l@ == split_at_op(
                    s@,
                    fop,
                    fi,
                ).0 && t@ == split_at_op(s@, fop, fi).1
            },
            None => find_op(s@) is None,
        },
{
    match split_try(s, OpTok::Le) {
        Some(r) => {
            return Some(r);
        },
        None => {},
    }
    match split_try(s, OpTok::Ge) {
        Some(r) => {
            return Some(r);
        },
        None => {},
    }
    match split_try(s, OpTok::EqEps) {
        Some(r) => {
            return Some(r);
        },
        None => {},
    }
    match split_try(s, OpTok::NeEps) {
        Some(r) => {
            return Some(r);
        },
        None => {},
    }
    match split_try(s, OpTok::Lt) {
        Some(r) => {
            return Some(r);
        },
        None => {},
    }
    match split_try(s, OpTok::Gt) {
        Some(r) => {
            return Some(r);
        },
        None => {},
    }
    match split_try(s, OpTok::Tol) {
        Some(r) => {
            return Some(r);
        },
        None => {},
    }
    None
}

/// Looks for one operator token and, when it occurs, splits there.
fn split_try(s: &[u8], op: OpTok) -> (r: Option<(OpTok, Vec<u8>, Vec<u8>)>)
    ensures
        match r {
            Some((rop, l, t)) => {
                &&& rop == op
                &&& first_match(s@, op_bytes(op)) matches Some(fi) && l@ == split_at_op(
                    s@,
                    op,
                    fi,
                ).0 && t@ == split_at_op(s@, op, fi).1
            },
            None => first_match(s@, op_bytes(op)) is None,
        },
{
    let pat = op_pattern(op);
    let n = s.len();
    match find_first(s, &pat) {
        Some(i) => {
            proof {
                lemma_first_match_props(s@, op_bytes(op));
            }
            let left = trimmed_piece(s, 0, i);
            let right = trimmed_piece(s, i + pat.len(), n);
            Some((op, left, right))
        },
        None => None,
    }
}

} // verus!
