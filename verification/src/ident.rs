//! Position identifiers for the sequence store.
//!
//! An identifier carries a path of digits, compared as a base-(2^64)
//! fraction (missing digits read as zero), together with the minting
//! actor's id and that actor's logical clock.  The digit paths give a
//! dense order: between any two distinct paths a third can always be
//! synthesized.  The (actor, clock) pair makes every minted identifier
//! globally unique and breaks ties between paths that concurrent actors
//! happened to mint for the same gap.

use vstd::prelude::*;

verus! {

/// A position identifier: a digit path ordered as a fraction, plus the
/// minting actor and its logical clock at minting time.
pub struct Ident {
    pub digits: Vec<u64>,
    pub actor: u64,
    pub clock: u64,
}

/// Digit of a path at position `i`, reading absent digits as zero.
pub open spec fn digit_at(d: Seq<u64>, i: int) -> u64 {
    if 0 <= i < d.len() {
        d[i]
    } else {
        0u64
    }
}

/// Tail of a path; the tail of the empty path is itself.
pub open spec fn path_tail(d: Seq<u64>) -> Seq<u64> {
    if d.len() == 0 {
        d
    } else {
        d.drop_first()
    }
}

/// Strict order on digit paths, read as base-(2^64) fractions:
/// compare digit by digit, padding the shorter path with zeros.
pub open spec fn path_lt(a: Seq<u64>, b: Seq<u64>) -> bool
    decreases a.len() + b.len(),
{
    if a.len() == 0 && b.len() == 0 {
        false
    } else if digit_at(a, 0) != digit_at(b, 0) {
        digit_at(a, 0) < digit_at(b, 0)
    } else {
        path_lt(path_tail(a), path_tail(b))
    }
}

/// Two digit paths denote the same fraction (equal after zero-padding).
pub open spec fn path_eq(a: Seq<u64>, b: Seq<u64>) -> bool
    decreases a.len() + b.len(),
{
    if a.len() == 0 && b.len() == 0 {
        true
    } else {
        digit_at(a, 0) == digit_at(b, 0) && path_eq(path_tail(a), path_tail(b))
    }
}

/// A path denoting a fraction strictly above zero.
pub open spec fn pos_path(d: Seq<u64>) -> bool {
    path_lt(Seq::<u64>::empty(), d)
}

/// Total strict order on identifiers: fraction order on the digit
/// paths, ties broken by actor id, then by the actor's clock.
pub open spec fn id_lt(a: Ident, b: Ident) -> bool {
    ||| path_lt(a.digits@, b.digits@)
    ||| (path_eq(a.digits@, b.digits@) && (a.actor < b.actor || (a.actor == b.actor
        && a.clock < b.clock)))
}

/// Every path denotes the same fraction as itself.
pub proof fn lemma_path_eq_refl(a: Seq<u64>)
    ensures
        path_eq(a, a),
    decreases a.len(),
{
    if a.len() != 0 {
        lemma_path_eq_refl(path_tail(a));
    }
}

/// Fraction equality is symmetric.
pub proof fn lemma_path_eq_sym(a: Seq<u64>, b: Seq<u64>)
    requires
        path_eq(a, b),
    ensures
        path_eq(b, a),
    decreases a.len() + b.len(),
{
    if !(a.len() == 0 && b.len() == 0) {
        lemma_path_eq_sym(path_tail(a), path_tail(b));
    }
}

/// A path never sorts strictly below an equal-fraction path.
pub proof fn lemma_path_eq_not_lt(a: Seq<u64>, b: Seq<u64>)
    requires
        path_eq(a, b),
    ensures
        !path_lt(a, b),
        !path_lt(b, a),
    decreases a.len() + b.len(),
{
    if !(a.len() == 0 && b.len() == 0) {
        lemma_path_eq_not_lt(path_tail(a), path_tail(b));
    }
}

/// Fraction order is transitive.
pub proof fn lemma_path_lt_trans(a: Seq<u64>, b: Seq<u64>, c: Seq<u64>)
    requires
        path_lt(a, b),
        path_lt(b, c),
    ensures
        path_lt(a, c),
    decreases a.len() + b.len() + c.len(),
{
    if digit_at(a, 0) == digit_at(b, 0) && digit_at(b, 0) == digit_at(c, 0) {
        lemma_path_lt_trans(path_tail(a), path_tail(b), path_tail(c));
    }
}

/// Fraction order is invariant under replacing either side by an
/// equal-fraction path.
pub proof fn lemma_path_eq_lt_congr(a: Seq<u64>, b: Seq<u64>, c: Seq<u64>)
    requires
        path_eq(a, b),
    ensures
        path_lt(a, c) == path_lt(b, c),
        path_lt(c, a) == path_lt(c, b),
    decreases a.len() + b.len() + c.len(),
{
    if !(a.len() == 0 && b.len() == 0 && c.len() == 0) {
        lemma_path_eq_lt_congr(path_tail(a), path_tail(b), path_tail(c));
    }
}

/// Fraction equality is transitive.
pub proof fn lemma_path_eq_trans(a: Seq<u64>, b: Seq<u64>, c: Seq<u64>)
    requires
        path_eq(a, b),
        path_eq(b, c),
    ensures
        path_eq(a, c),
    decreases a.len() + b.len() + c.len(),
{
    if !(a.len() == 0 && b.len() == 0 && c.len() == 0) {
        lemma_path_eq_trans(path_tail(a), path_tail(b), path_tail(c));
    }
}

/// Any two paths compare: below, equal as fractions, or above.
pub proof fn lemma_path_total(a: Seq<u64>, b: Seq<u64>)
    ensures
        path_lt(a, b) || path_eq(a, b) || path_lt(b, a),
    decreases a.len() + b.len(),
{
    if !(a.len() == 0 && b.len() == 0) {
        lemma_path_total(path_tail(a), path_tail(b));
    }
}

/// Nothing sorts strictly below the zero fraction.
pub proof fn lemma_path_not_lt_empty(a: Seq<u64>)
    ensures
        !path_lt(a, Seq::<u64>::empty()),
    decreases a.len(),
{
    if a.len() != 0 {
        lemma_path_not_lt_empty(path_tail(a));
    }
}

/// The identifier order is transitive.
pub proof fn lemma_id_lt_trans(a: Ident, b: Ident, c: Ident)
    requires
        id_lt(a, b),
        id_lt(b, c),
    ensures
        id_lt(a, c),
{
    if path_lt(a.digits@, b.digits@) && path_lt(b.digits@, c.digits@) {
        lemma_path_lt_trans(a.digits@, b.digits@, c.digits@);
    } else if path_lt(a.digits@, b.digits@) {
        lemma_path_eq_lt_congr(b.digits@, c.digits@, a.digits@);
    } else if path_lt(b.digits@, c.digits@) {
        lemma_path_eq_lt_congr(a.digits@, b.digits@, c.digits@);
    } else {
        lemma_path_eq_trans(a.digits@, b.digits@, c.digits@);
    }
}

/// The identifier order is irreflexive, hence two related identifiers
/// are distinct.
pub proof fn lemma_id_lt_irrefl(a: Ident)
    ensures
        !id_lt(a, a),
{
    lemma_path_eq_refl(a.digits@);
    lemma_path_eq_not_lt(a.digits@, a.digits@);
}

/// Law: the identifier order is total over distinct allocations — two
/// identifiers that neither sorts before the other agree on their
/// fraction, their actor and their clock.
pub proof fn lemma_id_lt_connected(a: Ident, b: Ident)
    requires
        !id_lt(a, b),
        !id_lt(b, a),
    ensures
        path_eq(a.digits@, b.digits@),
        a.actor == b.actor,
        a.clock == b.clock,
{
    lemma_path_total(a.digits@, b.digits@);
    if path_eq(a.digits@, b.digits@) {
        lemma_path_eq_sym(a.digits@, b.digits@);
    }
}

/// Suffix of a path starting at digit `i`; empty once `i` runs off the end.
pub open spec fn path_from(d: Seq<u64>, i: int) -> Seq<u64> {
    if 0 <= i < d.len() {
        d.skip(i)
    } else {
        Seq::<u64>::empty()
    }
}

/// Taking the suffix at zero gives the path back.
pub proof fn lemma_path_from_zero(d: Seq<u64>)
    ensures
        path_from(d, 0) == d,
{
    if d.len() > 0 {
        assert(path_from(d, 0) =~= d);
    } else {
        assert(path_from(d, 0) =~= d);
    }
}

/// Advancing the suffix index by one takes the tail of the suffix.
pub proof fn lemma_path_from_tail(d: Seq<u64>, i: int)
    requires
        0 <= i,
    ensures
        path_from(d, i + 1) == path_tail(path_from(d, i)),
{
    if i + 1 < d.len() {
        assert(path_from(d, i + 1) =~= path_tail(path_from(d, i)));
    } else if i < d.len() {
        assert(path_from(d, i + 1) =~= path_tail(path_from(d, i)));
    } else {
        assert(path_from(d, i + 1) =~= path_tail(path_from(d, i)));
    }
}

/// The digit path minted between `l` (zero when absent) and `r`
/// (infinity when absent): keep the digits shared with `l`, and place a
/// fresh digit in the first gap found, descending a level whenever the
/// current digits are adjacent.
pub open spec fn spec_alloc(l: Seq<u64>, r: Option<Seq<u64>>) -> Seq<u64>
    decreases l.len() + (match r {
        Option::Some(rd) => rd.len(),
        Option::None => 0,
    }),
{
    match r {
        Option::None => {
            if digit_at(l, 0) < u64::MAX {
                seq![(digit_at(l, 0) + 1) as u64]
            } else {
                seq![u64::MAX] + spec_alloc(path_tail(l), Option::None)
            }
        },
        Option::Some(rd) => {
            if rd.len() == 0 {
                seq![1u64]
            } else if digit_at(l, 0) == digit_at(rd, 0) {
                seq![digit_at(l, 0)] + spec_alloc(path_tail(l), Option::Some(path_tail(rd)))
            } else if digit_at(l, 0) + 1 < digit_at(rd, 0) {
                seq![(digit_at(l, 0) + 1) as u64]
            } else {
                seq![digit_at(l, 0)] + spec_alloc(path_tail(l), Option::None)
            }
        },
    }
}

/// The minted path lies strictly between its bounds, is never empty,
/// and denotes a fraction strictly above zero.
pub proof fn lemma_spec_alloc(l: Seq<u64>, r: Option<Seq<u64>>)
    requires
        match r {
            Option::Some(rd) => path_lt(l, rd),
            Option::None => true,
        },
    ensures
        path_lt(l, spec_alloc(l, r)),
        match r {
            Option::Some(rd) => path_lt(spec_alloc(l, r), rd),
            Option::None => true,
        },
        spec_alloc(l, r).len() >= 1,
        pos_path(spec_alloc(l, r)),
    decreases l.len() + (match r {
        Option::Some(rd) => rd.len(),
        Option::None => 0,
    }),
{
    let s = spec_alloc(l, r);
    match r {
        Option::None => {
            if digit_at(l, 0) < u64::MAX {
            } else {
                let s2 = spec_alloc(path_tail(l), Option::None);
                lemma_spec_alloc(path_tail(l), Option::None);
                assert(path_tail(s) =~= s2);
            }
        },
        Option::Some(rd) => {
            if rd.len() == 0 {
                assert(rd =~= Seq::<u64>::empty());
                lemma_path_not_lt_empty(l);
                assert(false);
            } else if digit_at(l, 0) == digit_at(rd, 0) {
                let s2 = spec_alloc(path_tail(l), Option::Some(path_tail(rd)));
                lemma_spec_alloc(path_tail(l), Option::Some(path_tail(rd)));
                assert(path_tail(s) =~= s2);
            } else if digit_at(l, 0) + 1 < digit_at(rd, 0) {
            } else {
                let s2 = spec_alloc(path_tail(l), Option::None);
                lemma_spec_alloc(path_tail(l), Option::None);
                assert(path_tail(s) =~= s2);
            }
        },
    }
}

/// The digit path minted between optional bounds: the left bound reads
/// as the zero fraction when absent.
pub open spec fn spec_allocate(l: Option<Seq<u64>>, r: Option<Seq<u64>>) -> Seq<u64> {
    spec_alloc(
        match l {
            Option::Some(ld) => ld,
            Option::None => Seq::<u64>::empty(),
        },
        r,
    )
}

fn alloc_digits(l: &Vec<u64>, r: Option<&Vec<u64>>, i: usize) -> (res: Vec<u64>)
    requires
        match r {
            Option::Some(rv) => path_lt(path_from(l@, i as int), path_from(rv@, i as int)),
            Option::None => true,
        },
    ensures
        res@ == spec_alloc(
            path_from(l@, i as int),
            match r {
                Option::Some(rv) => Option::Some(path_from(rv@, i as int)),
                Option::None => Option::None,
            },
        ),
    decreases path_from(l@, i as int).len() + (match r {
        Option::Some(rv) => path_from(rv@, i as int).len(),
        Option::None => 0nat,
    }),
{
    let ghost ls = path_from(l@, i as int);
    let l0: u64 = if i < l.len() {
        *vstd::slice::slice_index_get(l.as_slice(), i)
    } else {
        0
    };
    proof {
        assert(digit_at(ls, 0) == l0);
        lemma_path_from_tail(l@, i as int);
    }
    match r {
        Option::None => {
            if l0 < u64::MAX {
                let mut v: Vec<u64> = Vec::new();
                v.push(l0 + 1);
                proof {
                    assert(v@ =~= spec_alloc(ls, Option::None::<Seq<u64>>));
                }
                v
            } else {
                let mut rest = alloc_digits(l, Option::None, i + 1);
                rest.insert(0, u64::MAX);
                proof {
                    assert(rest@ =~= spec_alloc(ls, Option::None::<Seq<u64>>));
                }
                rest
            }
        },
        Option::Some(rv) => {
            let ghost rs = path_from(rv@, i as int);
            proof {
                lemma_path_from_tail(rv@, i as int);
                if rs.len() == 0 {
                    assert(rs =~= Seq::<u64>::empty());
                    lemma_path_not_lt_empty(ls);
                }
            }
            let rlen = rv.len();
            proof {
                assert(i < rlen);
            }
            let r0: u64 = *vstd::slice::slice_index_get(rv.as_slice(), i);
            proof {
                assert(digit_at(rs, 0) == r0);
            }
            if l0 == r0 {
                let mut rest = alloc_digits(l, Option::Some(rv), i + 1);
                rest.insert(0, l0);
                proof {
                    assert(rest@ =~= spec_alloc(ls, Option::Some(rs)));
                }
                rest
            } else if r0 - l0 > 1 {
                let mut v: Vec<u64> = Vec::new();
                v.push(l0 + 1);
                proof {
                    assert(v@ =~= spec_alloc(ls, Option::Some(rs)));
                }
                v
            } else {
                let mut rest = alloc_digits(l, Option::None, i + 1);
                rest.insert(0, l0);
                proof {
                    assert(rest@ =~= spec_alloc(ls, Option::Some(rs)));
                }
                rest
            }
        },
    }
}

/// Mints a fresh identifier sorting strictly between `left` and
/// `right` (absent bounds read as the ends of the identifier space),
/// owned by `actor` at logical time `clock`.
///
/// The digit path depends on the bounds alone, so two actors minting
/// for the same gap obtain paths of equal fraction, ordered by their
/// actor ids — see `lemma_concurrent_allocation_order`.
pub fn allocate_between(left: Option<&Ident>, right: Option<&Ident>, actor: u64, clock: u64) -> (r:
    Ident)
    requires
        match (left, right) {
            (Option::Some(l), Option::Some(rr)) => path_lt(l.digits@, rr.digits@),
            (Option::None, Option::Some(rr)) => pos_path(rr.digits@),
            _ => true,
        },
    ensures
        r.actor == actor,
        r.clock == clock,
        r.digits@.len() >= 1,
        pos_path(r.digits@),
        match left {
            Option::Some(l) => path_lt(l.digits@, r.digits@),
            Option::None => true,
        },
        match right {
            Option::Some(rr) => path_lt(r.digits@, rr.digits@),
            Option::None => true,
        },
        r.digits@ == spec_allocate(
            match left {
                Option::Some(l) => Option::Some(l.digits@),
                Option::None => Option::None,
            },
            match right {
                Option::Some(rr) => Option::Some(rr.digits@),
                Option::None => Option::None,
            },
        ),
{
    let empty_digits: Vec<u64> = Vec::new();
    let lv: &Vec<u64> = match left {
        Option::Some(l) => &l.digits,
        Option::None => &empty_digits,
    };
    proof {
        lemma_path_from_zero(lv@);
        match right {
            Option::Some(rr) => {
                lemma_path_from_zero(rr.digits@);
                lemma_spec_alloc(lv@, Option::Some(rr.digits@));
            },
            Option::None => {
                lemma_spec_alloc(lv@, Option::None);
            },
        }
    }
    let digits = match right {
        Option::Some(rr) => alloc_digits(lv, Option::Some(&rr.digits), 0),
        Option::None => alloc_digits(lv, Option::None, 0),
    };
    Ident { digits, actor, clock }
}

fn path_cmp(a: &Vec<u64>, b: &Vec<u64>, i: usize) -> (r: u8)
    ensures
        r == 0 ==> path_lt(path_from(a@, i as int), path_from(b@, i as int)),
        r == 1 ==> path_eq(path_from(a@, i as int), path_from(b@, i as int)),
        r == 2 ==> path_lt(path_from(b@, i as int), path_from(a@, i as int)),
        r == 0 || r == 1 || r == 2,
    decreases path_from(a@, i as int).len() + path_from(b@, i as int).len(),
{
    let ghost sa = path_from(a@, i as int);
    let ghost sb = path_from(b@, i as int);
    proof {
        lemma_path_from_tail(a@, i as int);
        lemma_path_from_tail(b@, i as int);
    }
    let alen = a.len();
    let blen = b.len();
    if i >= alen && i >= blen {
        1
    } else {
        let da: u64 = if i < alen {
            *vstd::slice::slice_index_get(a.as_slice(), i)
        } else {
            0
        };
        let db: u64 = if i < blen {
            *vstd::slice::slice_index_get(b.as_slice(), i)
        } else {
            0
        };
        proof {
            assert(digit_at(sa, 0) == da);
            assert(digit_at(sb, 0) == db);
        }
        if da < db {
            0
        } else if da > db {
            2
        } else {
            path_cmp(a, b, i + 1)
        }
    }
}

/// Decides the total order on identifiers: true exactly when `a` sorts
/// strictly before `b`.  The order reads nothing but the two
/// identifiers, so every actor compares any two of them alike.
pub fn id_less(a: &Ident, b: &Ident) -> (r: bool)
    ensures
        r == id_lt(*a, *b),
{
    proof {
        lemma_path_from_zero(a.digits@);
        lemma_path_from_zero(b.digits@);
    }
    let c = path_cmp(&a.digits, &b.digits, 0);
    proof {
        if c == 0 {
            lemma_path_eq_refl(a.digits@);
            lemma_path_eq_not_lt(a.digits@, a.digits@);
        }
        if c == 1 {
            lemma_path_eq_not_lt(a.digits@, b.digits@);
        }
        if c == 2 {
            if path_eq(a.digits@, b.digits@) {
                lemma_path_eq_not_lt(a.digits@, b.digits@);
            }
            if path_lt(a.digits@, b.digits@) {
                lemma_path_lt_trans(a.digits@, b.digits@, a.digits@);
                lemma_path_eq_refl(a.digits@);
                lemma_path_eq_not_lt(a.digits@, a.digits@);
            }
        }
    }
    if c == 0 {
        true
    } else if c == 1 {
        a.actor < b.actor || (a.actor == b.actor && a.clock < b.clock)
    } else {
        false
    }
}

/// Law: when two actors concurrently mint an identifier for the same
/// gap, the identifiers are distinct, and their relative order is
/// decided by the actor ids alone — the same on every replica, however
/// the two inserts arrive.
pub proof fn lemma_concurrent_allocation_order(
    left: Option<Seq<u64>>,
    right: Option<Seq<u64>>,
    a: Ident,
    b: Ident,
)
    requires
        a.digits@ == spec_allocate(left, right),
        b.digits@ == spec_allocate(left, right),
        a.actor != b.actor,
    ensures
        a != b,
        id_lt(a, b) <==> a.actor < b.actor,
        id_lt(b, a) <==> b.actor < a.actor,
{
    lemma_path_eq_refl(a.digits@);
    lemma_path_eq_not_lt(a.digits@, b.digits@);
}

} // verus!
