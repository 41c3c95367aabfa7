//! The sequence store: the document itself.
//!
//! A document owns every element ever created for it, kept in strict
//! identifier order.  Deletion only marks an element with a tombstone;
//! the visible text is the concatenation of the values of the
//! non-tombstoned elements, in identifier order, and every index-based
//! operation resolves its index against that visible projection.

use vstd::prelude::*;
use crate::ident::Ident;
use crate::ident::path_lt;
use crate::ident::pos_path;
use crate::ident::allocate_between;
use crate::ident::lemma_path_lt_trans;

verus! {

/// The only error this engine produces: a caller-supplied index or
/// range that exceeds the current visible bounds.
#[derive(Debug, PartialEq, Eq, Structural, Clone, Copy)]
pub enum DocError {
    IndexOutOfRange,
}

/// One inserted character: its immutable identifier and value, and the
/// tombstone flag, set at most once by deletion.
pub struct Element {
    pub id: Ident,
    pub value: char,
    pub tombstone: bool,
}

/// The document: all elements ever created, in identifier order, plus
/// this replica's actor id and its logical clock for minting fresh
/// identifiers.
pub struct Doc {
    pub elems: Vec<Element>,
    pub actor: u64,
    pub clock: u64,
}

/// The visible text of a run of elements: the values of the
/// non-tombstoned elements, in order.
pub open spec fn visible_of(s: Seq<Element>) -> Seq<char>
    decreases s.len(),
{
    if s.len() == 0 {
        Seq::<char>::empty()
    } else if s[0].tombstone {
        visible_of(s.drop_first())
    } else {
        seq![s[0].value] + visible_of(s.drop_first())
    }
}

/// `t` spliced into `v` at position `at`.
pub open spec fn splice(v: Seq<char>, at: int, t: Seq<char>) -> Seq<char> {
    v.subrange(0, at) + t + v.subrange(at, v.len() as int)
}

/// `v` with the `count` characters from position `at` removed.
pub open spec fn cut(v: Seq<char>, at: int, count: int) -> Seq<char> {
    v.subrange(0, at) + v.subrange(at + count, v.len() as int)
}

/// Every element of `a` persists in `b`: same identifier and value,
/// and its tombstone, once set, stays set.
pub open spec fn elem_kept(e: Element, b: Seq<Element>) -> bool {
    exists|j: int|
        0 <= j < b.len() && (#[trigger] b[j]).id == e.id && b[j].value == e.value && (e.tombstone
            ==> b[j].tombstone)
}

/// No operation ever erases an element or clears a tombstone: each
/// element of `a` is still present in `b`.
pub open spec fn elems_preserved(a: Seq<Element>, b: Seq<Element>) -> bool {
    forall|i: int| 0 <= i < a.len() ==> elem_kept(#[trigger] a[i], b)
}

/// Some element carrying identifier `id` is tombstoned in `s`.
pub open spec fn tombstoned_in(s: Seq<Element>, id: Ident) -> bool {
    exists|i: int| 0 <= i < s.len() && (#[trigger] s[i]).id == id && s[i].tombstone
}

impl Doc {
    /// Well-formedness: elements strictly ordered by their identifier
    /// paths, every identifier properly minted, and every identifier
    /// minted by this replica's actor older than the current clock.
    pub open spec fn wf(self) -> bool {
        &&& forall|i: int, j: int|
            0 <= i < j < self.elems@.len() ==> path_lt(
                (#[trigger] self.elems@[i]).id.digits@,
                (#[trigger] self.elems@[j]).id.digits@,
            )
        &&& forall|i: int|
            0 <= i < self.elems@.len() ==> (#[trigger] self.elems@[i]).id.digits@.len() >= 1
                && pos_path(self.elems@[i].id.digits@)
        &&& forall|i: int|
            0 <= i < self.elems@.len() && (#[trigger] self.elems@[i]).id.actor == self.actor
                ==> self.elems@[i].id.clock < self.clock
    }

    /// The visible text of the document.
    pub open spec fn text(self) -> Seq<char> {
        visible_of(self.elems@)
    }
}

/// Splitting a run of elements splits its visible text.
pub proof fn lemma_visible_concat(a: Seq<Element>, b: Seq<Element>)
    ensures
        visible_of(a + b) == visible_of(a) + visible_of(b),
    decreases a.len(),
{
    if a.len() == 0 {
        assert(a + b =~= b);
        assert(visible_of(a) + visible_of(b) =~= visible_of(b));
    } else {
        lemma_visible_concat(a.drop_first(), b);
        assert((a + b).drop_first() =~= a.drop_first() + b);
        assert((a + b)[0] == a[0]);
        if a[0].tombstone {
        } else {
            assert(seq![a[0].value] + (visible_of(a.drop_first()) + visible_of(b)) =~= (seq![
                a[0].value,
            ] + visible_of(a.drop_first())) + visible_of(b));
        }
    }
}

/// The visible text is never longer than the element run.
pub proof fn lemma_visible_len_le(s: Seq<Element>)
    ensures
        visible_of(s).len() <= s.len(),
    decreases s.len(),
{
    if s.len() != 0 {
        lemma_visible_len_le(s.drop_first());
    }
}

/// Appending one element appends its visible contribution.
pub proof fn lemma_visible_push(s: Seq<Element>, e: Element)
    ensures
        visible_of(s.push(e)) == visible_of(s) + (if e.tombstone {
            Seq::<char>::empty()
        } else {
            seq![e.value]
        }),
{
    lemma_visible_concat(s, seq![e]);
    assert(s.push(e) =~= s + seq![e]);
    assert(seq![e].drop_first() =~= Seq::<Element>::empty());
    assert(visible_of(Seq::<Element>::empty()) == Seq::<char>::empty());
    if e.tombstone {
        assert(visible_of(seq![e]) == Seq::<char>::empty());
        assert(visible_of(s) + Seq::<char>::empty() =~= visible_of(s));
    } else {
        assert(visible_of(seq![e]) =~= seq![e.value]);
        assert(visible_of(s.push(e)) == visible_of(s) + seq![e.value]);
    }
}

impl Doc {
    /// A fresh, empty document owned by `actor`.
    pub fn new(actor: u64) -> (d: Doc)
        ensures
            d.wf(),
            d.text() == Seq::<char>::empty(),
            d.elems@ == Seq::<Element>::empty(),
            d.actor == actor,
            d.clock == 0,
    {
        let d = Doc { elems: Vec::new(), actor, clock: 0 };
        proof {
            assert(d.elems@ =~= Seq::<Element>::empty());
        }
        d
    }

    /// The length of the visible text.
    pub fn visible_len(&self) -> (n: usize)
        ensures
            n == self.text().len(),
    {
        let mut n: usize = 0;
        let mut i: usize = 0;
        while i < self.elems.len()
            invariant
                i <= self.elems@.len(),
                n == visible_of(self.elems@.take(i as int)).len(),
            decreases self.elems@.len() - i,
        {
            proof {
                lemma_visible_push(self.elems@.take(i as int), self.elems@[i as int]);
                assert(self.elems@.take(i + 1) =~= self.elems@.take(i as int).push(
                    self.elems@[i as int],
                ));
                lemma_visible_len_le(self.elems@.take(i + 1));
            }
            if !self.elems[i].tombstone {
                n = n + 1;
            }
            i = i + 1;
        }
        proof {
            assert(self.elems@.take(self.elems@.len() as int) =~= self.elems@);
        }
        n
    }

    /// The position in the element run where the visible index `at`
    /// falls: the slot of the `at`-th visible element, or the end of
    /// the run when `at` is the visible length.
    fn find_slot(&self, at: usize) -> (j: usize)
        requires
            at <= self.text().len(),
        ensures
            j <= self.elems@.len(),
            visible_of(self.elems@.take(j as int)).len() == at,
            j < self.elems@.len() ==> !self.elems@[j as int].tombstone,
            j == self.elems@.len() ==> at == self.text().len(),
    {
        let mut cnt: usize = 0;
        let mut j: usize = 0;
        while j < self.elems.len()
            invariant
                at <= self.text().len(),
                j <= self.elems@.len(),
                cnt == visible_of(self.elems@.take(j as int)).len(),
                cnt <= at,
            decreases self.elems@.len() - j,
        {
            proof {
                lemma_visible_push(self.elems@.take(j as int), self.elems@[j as int]);
                assert(self.elems@.take(j + 1) =~= self.elems@.take(j as int).push(
                    self.elems@[j as int],
                ));
            }
            if !self.elems[j].tombstone {
                if cnt == at {
                    return j;
                }
                cnt = cnt + 1;
            }
            j = j + 1;
        }
        proof {
            assert(self.elems@.take(self.elems@.len() as int) =~= self.elems@);
        }
        j
    }
}

/// Every element run preserves itself.
pub proof fn lemma_elems_preserved_refl(a: Seq<Element>)
    ensures
        elems_preserved(a, a),
{
    assert forall|i: int| 0 <= i < a.len() implies elem_kept(#[trigger] a[i], a) by {
        assert(0 <= i < a.len() && a[i].id == a[i].id && a[i].value == a[i].value && (a[i].tombstone
            ==> a[i].tombstone));
    }
}

/// Element preservation composes across successive operations.
pub proof fn lemma_elems_preserved_trans(a: Seq<Element>, b: Seq<Element>, c: Seq<Element>)
    requires
        elems_preserved(a, b),
        elems_preserved(b, c),
    ensures
        elems_preserved(a, c),
{
    assert forall|i: int| 0 <= i < a.len() implies elem_kept(#[trigger] a[i], c) by {
        assert(elem_kept(a[i], b));
        let j = choose|j: int|
            0 <= j < b.len() && (#[trigger] b[j]).id == a[i].id && b[j].value == a[i].value && (
            a[i].tombstone ==> b[j].tombstone);
        assert(elem_kept(b[j], c));
        let k = choose|k: int|
            0 <= k < c.len() && (#[trigger] c[k]).id == b[j].id && c[k].value == b[j].value && (
            b[j].tombstone ==> c[k].tombstone);
        assert(0 <= k < c.len() && c[k].id == a[i].id && c[k].value == a[i].value && (a[i].tombstone
            ==> c[k].tombstone));
    }
}

impl Doc {
    /// Inserts one character at visible position `a`: mints a fresh
    /// identifier between the neighbors of the insertion point and
    /// places the new element where that identifier sorts.
    fn insert_char(&mut self, a: usize, c: char)
        requires
            old(self).wf(),
            a <= old(self).text().len(),
            old(self).clock < u64::MAX,
        ensures
            final(self).wf(),
            final(self).actor == old(self).actor,
            final(self).clock == old(self).clock + 1,
            final(self).text() == splice(old(self).text(), a as int, seq![c]),
            final(self).elems@.len() == old(self).elems@.len() + 1,
            elems_preserved(old(self).elems@, final(self).elems@),
    {
        let ghost s0 = old(self).elems@;
        let ghost v0 = old(self).text();
        let j = self.find_slot(a);
        let ghost jj = j as int;
        let left_opt: Option<&Ident> = if j > 0 {
            Option::Some(&self.elems[j - 1].id)
        } else {
            Option::None
        };
        let right_opt: Option<&Ident> = if j < self.elems.len() {
            Option::Some(&self.elems[j].id)
        } else {
            Option::None
        };
        let id = allocate_between(left_opt, right_opt, self.actor, self.clock);
        let e = Element { id, value: c, tombstone: false };
        self.elems.insert(j, e);
        self.clock = self.clock + 1;
        proof {
            let s1 = self.elems@;
            assert(s1 =~= s0.take(jj) + seq![e] + s0.skip(jj));
            assert(s0 =~= s0.take(jj) + s0.skip(jj));
            lemma_visible_concat(s0.take(jj), s0.skip(jj));
            lemma_visible_concat(s0.take(jj) + seq![e], s0.skip(jj));
            lemma_visible_concat(s0.take(jj), seq![e]);
            assert(seq![e].drop_first() =~= Seq::<Element>::empty());
            assert(visible_of(Seq::<Element>::empty()) == Seq::<char>::empty());
            assert(visible_of(seq![e]) =~= seq![c]);
            assert(visible_of(s0.take(jj)).len() == a);
            assert(v0.subrange(0, a as int) =~= visible_of(s0.take(jj)));
            assert(v0.subrange(a as int, v0.len() as int) =~= visible_of(s0.skip(jj)));
            assert(visible_of(s1) =~= splice(v0, a as int, seq![c]));
            // the new run stays strictly sorted by identifier path
            assert forall|p: int, q: int| 0 <= p < q < s1.len() implies path_lt(
                s1[p].id.digits@,
                s1[q].id.digits@,
            ) by {
                if q < jj {
                } else if p < jj && q == jj {
                    assert(s1[p].id == s0[p].id);
                    assert(path_lt(s0[jj - 1].id.digits@, e.id.digits@));
                    if p < jj - 1 {
                        lemma_path_lt_trans(
                            s0[p].id.digits@,
                            s0[jj - 1].id.digits@,
                            e.id.digits@,
                        );
                    }
                } else if p == jj {
                    assert(s1[q].id == s0[q - 1].id);
                    assert(path_lt(e.id.digits@, s0[jj].id.digits@));
                    if q - 1 > jj {
                        lemma_path_lt_trans(
                            e.id.digits@,
                            s0[jj].id.digits@,
                            s0[q - 1].id.digits@,
                        );
                    }
                } else if p < jj && q > jj {
                    assert(s1[p].id == s0[p].id);
                    assert(s1[q].id == s0[q - 1].id);
                } else {
                }
            }
            // every old element persists, shifted past the insertion slot
            assert forall|i: int| 0 <= i < s0.len() implies elem_kept(#[trigger] s0[i], s1) by {
                if i < jj {
                    assert(s1[i] == s0[i]);
                    assert(0 <= i < s1.len() && s1[i].id == s0[i].id && s1[i].value == s0[i].value
                        && (s0[i].tombstone ==> s1[i].tombstone));
                } else {
                    assert(s1[i + 1] == s0[i]);
                    assert(0 <= i + 1 < s1.len() && s1[i + 1].id == s0[i].id && s1[i + 1].value
                        == s0[i].value && (s0[i].tombstone ==> s1[i + 1].tombstone));
                }
            }
        }
    }
}

impl Doc {
    /// Inserts `text` at visible index `at`.
    ///
    /// Succeeds exactly when `at` is within the visible text, the end
    /// included (append); the visible text then becomes the old text
    /// with `text` spliced in at `at`.  On an index beyond the visible
    /// length the document is left untouched and `IndexOutOfRange` is
    /// returned.  Existing elements are never moved, erased or
    /// un-tombstoned.
    pub fn insert(&mut self, at: usize, text: &Vec<char>) -> (res: Result<(), DocError>)
        requires
            old(self).wf(),
            old(self).clock + text@.len() <= u64::MAX,
        ensures
            final(self).wf(),
            final(self).actor == old(self).actor,
            at <= old(self).text().len() ==> {
                &&& res == Result::<(), DocError>::Ok(())
                &&& final(self).text() == splice(old(self).text(), at as int, text@)
                &&& final(self).elems@.len() == old(self).elems@.len() + text@.len()
                &&& final(self).clock == old(self).clock + text@.len()
                &&& elems_preserved(old(self).elems@, final(self).elems@)
            },
            at > old(self).text().len() ==> {
                &&& res == Result::<(), DocError>::Err(DocError::IndexOutOfRange)
                &&& *final(self) == *old(self)
            },
    {
        let n = self.visible_len();
        if at > n {
            return Result::Err(DocError::IndexOutOfRange);
        }
        let ghost s0 = old(self).elems@;
        let ghost v0 = old(self).text();
        proof {
            assert(text@.subrange(0, 0) =~= Seq::<char>::empty());
            assert(splice(v0, at as int, text@.subrange(0, 0)) =~= v0);
            lemma_elems_preserved_refl(s0);
        }
        let mut k: usize = 0;
        while k < text.len()
            invariant
                self.wf(),
                self.actor == old(self).actor,
                k <= text@.len(),
                self.clock == old(self).clock + k,
                old(self).clock + text@.len() <= u64::MAX,
                at <= v0.len(),
                v0 == old(self).text(),
                s0 == old(self).elems@,
                self.text() == splice(v0, at as int, text@.subrange(0, k as int)),
                self.elems@.len() == s0.len() + k,
                elems_preserved(s0, self.elems@),
            decreases text@.len() - k,
        {
            let ghost prev = *self;
            proof {
                assert(self.text().len() == v0.len() + k);
            }
            let cur_len = self.elems.len();
            proof {
                lemma_visible_len_le(self.elems@);
                assert(at + k <= self.text().len());
                assert(self.text().len() <= cur_len);
            }
            let c = text[k];
            self.insert_char(at + k, c);
            proof {
                let ghost pa = v0.subrange(0, at as int);
                let ghost pb = v0.subrange(at as int, v0.len() as int);
                let ghost tk = text@.subrange(0, k as int);
                let pv = prev.text();
                assert(pv == pa + tk + pb);
                assert(pv.subrange(0, at + k as int) =~= pa + tk);
                assert(pv.subrange(at + k as int, pv.len() as int) =~= pb);
                assert(self.text() == pv.subrange(0, at + k as int) + seq![c] + pv.subrange(
                    at + k as int,
                    pv.len() as int,
                ));
                assert(text@.subrange(0, k + 1 as int) =~= tk + seq![c]);
                assert(self.text() =~= splice(v0, at as int, text@.subrange(0, k + 1 as int)));
                lemma_elems_preserved_trans(s0, prev.elems@, self.elems@);
            }
            k = k + 1;
        }
        proof {
            assert(text@.subrange(0, text@.len() as int) =~= text@);
        }
        Result::Ok(())
    }
}

impl Doc {
    /// Marks the `count` visible elements starting at visible index
    /// `at` as tombstoned.
    ///
    /// Succeeds exactly when the range fits in the visible text (a
    /// `count` of zero is a no-op, not an error); the visible text then
    /// becomes the old text with those characters cut out.  No element
    /// is physically removed: identifiers, values and the run's length
    /// stay as they were, and tombstones only ever get set.  On a range
    /// beyond the visible length the document is left untouched and
    /// `IndexOutOfRange` is returned.
    pub fn delete(&mut self, at: usize, count: usize) -> (res: Result<(), DocError>)
        requires
            old(self).wf(),
        ensures
            final(self).wf(),
            final(self).actor == old(self).actor,
            final(self).clock == old(self).clock,
            at + count <= old(self).text().len() ==> {
                &&& res == Result::<(), DocError>::Ok(())
                &&& final(self).text() == cut(old(self).text(), at as int, count as int)
                &&& final(self).elems@.len() == old(self).elems@.len()
                &&& (forall|i: int|
                    0 <= i < old(self).elems@.len() ==> (#[trigger] final(self).elems@[i]).id
                        == old(self).elems@[i].id && final(self).elems@[i].value
                        == old(self).elems@[i].value && (old(self).elems@[i].tombstone
                        ==> final(self).elems@[i].tombstone))
                &&& elems_preserved(old(self).elems@, final(self).elems@)
            },
            at + count > old(self).text().len() ==> {
                &&& res == Result::<(), DocError>::Err(DocError::IndexOutOfRange)
                &&& *final(self) == *old(self)
            },
    {
        let n = self.visible_len();
        if count > n || at > n - count {
            return Result::Err(DocError::IndexOutOfRange);
        }
        let ghost s0 = old(self).elems@;
        let ghost v0 = old(self).text();
        proof {
            assert(v0.subrange(0, at as int) + v0.subrange(at as int, v0.len() as int) =~= v0);
        }
        let mut k: usize = 0;
        while k < count
            invariant
                self.wf(),
                self.actor == old(self).actor,
                self.clock == old(self).clock,
                k <= count,
                at + count <= v0.len(),
                v0 == old(self).text(),
                s0 == old(self).elems@,
                self.text() == v0.subrange(0, at as int) + v0.subrange(
                    at + k as int,
                    v0.len() as int,
                ),
                self.elems@.len() == s0.len(),
                forall|i: int|
                    0 <= i < s0.len() ==> (#[trigger] self.elems@[i]).id == s0[i].id
                        && self.elems@[i].value == s0[i].value && (s0[i].tombstone
                        ==> self.elems@[i].tombstone),
            decreases count - k,
        {
            proof {
                assert(self.text().len() == v0.len() - k);
                assert(at < self.text().len());
            }
            let j = self.find_slot(at);
            let ghost sp = self.elems@;
            let ghost jj = j as int;
            let elem = &mut self.elems[j];
            elem.tombstone = true;
            proof {
                let s1 = self.elems@;
                let e2 = Element { id: sp[jj].id, value: sp[jj].value, tombstone: true };
                assert(s1 =~= sp.take(jj) + (seq![e2] + sp.skip(jj + 1)));
                assert(sp =~= sp.take(jj) + (seq![sp[jj]] + sp.skip(jj + 1)));
                lemma_visible_concat(sp.take(jj), seq![sp[jj]] + sp.skip(jj + 1));
                lemma_visible_concat(seq![sp[jj]], sp.skip(jj + 1));
                lemma_visible_concat(sp.take(jj), seq![e2] + sp.skip(jj + 1));
                lemma_visible_concat(seq![e2], sp.skip(jj + 1));
                assert(seq![sp[jj]].drop_first() =~= Seq::<Element>::empty());
                assert(seq![e2].drop_first() =~= Seq::<Element>::empty());
                assert(visible_of(Seq::<Element>::empty()) == Seq::<char>::empty());
                assert(visible_of(seq![sp[jj]]) =~= seq![sp[jj].value]);
                assert(visible_of(seq![e2]) =~= Seq::<char>::empty());
                let x = visible_of(sp.take(jj));
                let y = visible_of(sp.skip(jj + 1));
                assert(visible_of(sp) =~= x + seq![sp[jj].value] + y);
                assert(visible_of(s1) =~= x + y);
                assert(x.len() == at);
                let a1 = v0.subrange(0, at as int);
                let bk = v0.subrange(at + k as int, v0.len() as int);
                assert(visible_of(sp) == a1 + bk);
                assert(a1.len() == at);
                assert(bk.len() == v0.len() - at - k);
                assert(visible_of(sp) == (x + seq![sp[jj].value]) + y);
                assert forall|i: int| 0 <= i < at implies x[i] == a1[i] by {
                    assert(((x + seq![sp[jj].value]) + y)[i] == x[i]);
                    assert((a1 + bk)[i] == a1[i]);
                }
                assert(x =~= a1);
                assert(y.len() == bk.len() - 1);
                assert forall|i: int| 0 <= i < y.len() implies y[i] == bk[i + 1] by {
                    assert(((x + seq![sp[jj].value]) + y)[at + 1 + i] == y[i]);
                    assert((a1 + bk)[at + 1 + i] == bk[i + 1]);
                }
                assert(y =~= bk.subrange(1, bk.len() as int));
                assert(y =~= v0.subrange(at + (k + 1) as int, v0.len() as int));
                assert(visible_of(s1) =~= a1 + v0.subrange(at + (k + 1) as int, v0.len() as int));
            }
            k = k + 1;
        }
        proof {
            assert(self.text() =~= cut(v0, at as int, count as int));
            lemma_elems_preserved_refl(s0);
            assert forall|i: int| 0 <= i < s0.len() implies elem_kept(
                #[trigger] s0[i],
                self.elems@,
            ) by {
                assert(0 <= i < self.elems@.len() && self.elems@[i].id == s0[i].id
                    && self.elems@[i].value == s0[i].value && (s0[i].tombstone
                    ==> self.elems@[i].tombstone));
            }
        }
        Result::Ok(())
    }

    /// The visible text: the values of the non-tombstoned elements, in
    /// identifier order.  Never fails; an empty document reads as the
    /// empty sequence.
    pub fn read(&self) -> (t: Vec<char>)
        ensures
            t@ == self.text(),
    {
        let mut t: Vec<char> = Vec::new();
        let mut i: usize = 0;
        while i < self.elems.len()
            invariant
                i <= self.elems@.len(),
                t@ == visible_of(self.elems@.take(i as int)),
            decreases self.elems@.len() - i,
        {
            proof {
                lemma_visible_push(self.elems@.take(i as int), self.elems@[i as int]);
                assert(self.elems@.take(i + 1) =~= self.elems@.take(i as int).push(
                    self.elems@[i as int],
                ));
            }
            if !self.elems[i].tombstone {
                t.push(self.elems[i].value);
            }
            i = i + 1;
        }
        proof {
            assert(self.elems@.take(self.elems@.len() as int) =~= self.elems@);
        }
        t
    }

    /// The full element run, tombstones and identifiers included, for
    /// collaborators that need more than the visible projection.
    pub fn all_elements(&self) -> (r: &Vec<Element>)
        ensures
            r@ == self.elems@,
    {
        &self.elems
    }
}

impl Doc {
    /// One edit step as a caller reports it: delete `delete_count`
    /// characters at `start`, then insert `insert_text` there.  A zero
    /// count and an empty text each skip their half of the step.
    ///
    /// Both halves resolve against the same visible bound, so the step
    /// is all-or-nothing: it succeeds exactly when
    /// `start + delete_count` fits in the visible text (or nothing was
    /// asked at all), and otherwise leaves the document untouched.
    pub fn update_text(
        &mut self,
        start: usize,
        delete_count: usize,
        insert_text: &Vec<char>,
    ) -> (res: Result<(), DocError>)
        requires
            old(self).wf(),
            old(self).clock + insert_text@.len() <= u64::MAX,
        ensures
            final(self).wf(),
            final(self).actor == old(self).actor,
            (delete_count == 0 && insert_text@.len() == 0) ==> (res == Result::<(),
            DocError>::Ok(()) && *final(self) == *old(self)),
            ((delete_count > 0 || insert_text@.len() > 0) && start + delete_count <= old(
                self,
            ).text().len()) ==> {
                &&& res == Result::<(), DocError>::Ok(())
                &&& final(self).text() == splice(
                    cut(old(self).text(), start as int, delete_count as int),
                    start as int,
                    insert_text@,
                )
                &&& elems_preserved(old(self).elems@, final(self).elems@)
            },
            ((delete_count > 0 || insert_text@.len() > 0) && start + delete_count > old(
                self,
            ).text().len()) ==> (res == Result::<(), DocError>::Err(DocError::IndexOutOfRange)
                && *final(self) == *old(self)),
    {
        let ghost s0 = old(self).elems@;
        let ghost v0 = old(self).text();
        if delete_count > 0 {
            match self.delete(start, delete_count) {
                Result::Ok(_) => {},
                Result::Err(e) => {
                    return Result::Err(e);
                },
            }
        }
        let ghost mid = *self;
        if insert_text.len() > 0 {
            match self.insert(start, insert_text) {
                Result::Ok(_) => {},
                Result::Err(e) => {
                    return Result::Err(e);
                },
            }
        }
        proof {
            if delete_count == 0 && insert_text@.len() > 0 && start <= v0.len() {
                assert(cut(v0, start as int, 0) =~= v0);
            }
            if delete_count > 0 && insert_text@.len() > 0 && start + delete_count <= v0.len() {
                lemma_elems_preserved_trans(s0, mid.elems@, self.elems@);
            }
            if insert_text@.len() == 0 && delete_count > 0 && start + delete_count <= v0.len() {
                assert(splice(self.text(), start as int, insert_text@) =~= self.text());
            }
        }
        Result::Ok(())
    }
}

/// Law (round trip): splicing `t1` into a text and then `t2` right
/// after it equals splicing their concatenation in one call; hence a
/// text built from the empty document by any number of inserts reads
/// as the concatenation of the inserted pieces, at the positions
/// specified, however the calls were split up.
pub proof fn lemma_splice_concat(v: Seq<char>, at: int, t1: Seq<char>, t2: Seq<char>)
    requires
        0 <= at <= v.len(),
    ensures
        splice(splice(v, at, t1), at + t1.len(), t2) == splice(v, at, t1 + t2),
{
    let w = splice(v, at, t1);
    assert(w.subrange(0, at + t1.len() as int) =~= v.subrange(0, at) + t1);
    assert(w.subrange(at + t1.len() as int, w.len() as int) =~= v.subrange(at, v.len() as int));
    assert(splice(w, at + t1.len(), t2) =~= splice(v, at, t1 + t2));
}

/// Law (round trip, base case): splicing into the empty text yields
/// exactly the inserted text.
pub proof fn lemma_splice_empty(t: Seq<char>)
    ensures
        splice(Seq::<char>::empty(), 0, t) == t,
{
    assert(splice(Seq::<char>::empty(), 0, t) =~= t);
}

/// Law (serialized appends): an insert at the visible length extends
/// the text by exactly the inserted characters.  Operations on a
/// shared document are serialized by its owner's lock, so a batch of
/// appends leaves every appended character present exactly once, in
/// whatever order the lock admitted the calls.
pub proof fn lemma_append_splice(v: Seq<char>, t: Seq<char>)
    ensures
        splice(v, v.len() as int, t) == v + t,
{
    assert(splice(v, v.len() as int, t) =~= v + t);
}

/// Law (identifiers never reused): in a well-formed document no
/// identifier occurs twice; every element keeps a distinct identity.
pub proof fn lemma_ids_distinct(d: Doc)
    requires
        d.wf(),
    ensures
        forall|i: int, j: int|
            0 <= i < j < d.elems@.len() ==> (#[trigger] d.elems@[i]).id != (
            #[trigger] d.elems@[j]).id,
{
    assert forall|i: int, j: int| 0 <= i < j < d.elems@.len() implies (#[trigger] d.elems@[i]).id
        != (#[trigger] d.elems@[j]).id by {
        if d.elems@[i].id == d.elems@[j].id {
            crate::ident::lemma_path_eq_refl(d.elems@[i].id.digits@);
            crate::ident::lemma_path_eq_not_lt(d.elems@[i].id.digits@, d.elems@[j].id.digits@);
        }
    }
}

/// Law (tombstone monotonicity): every operation of this engine
/// ensures `elems_preserved`, and preservation keeps every tombstone
/// set — once an element is tombstoned, no later operation makes it
/// visible again.
pub proof fn lemma_tombstone_monotonic(a: Seq<Element>, b: Seq<Element>, id: Ident)
    requires
        elems_preserved(a, b),
        tombstoned_in(a, id),
    ensures
        tombstoned_in(b, id),
{
    let i = choose|i: int| 0 <= i < a.len() && (#[trigger] a[i]).id == id && a[i].tombstone;
    assert(elem_kept(a[i], b));
    let j = choose|j: int|
        0 <= j < b.len() && (#[trigger] b[j]).id == a[i].id && b[j].value == a[i].value && (
        a[i].tombstone ==> b[j].tombstone);
    assert(0 <= j < b.len() && b[j].id == id && b[j].tombstone);
}

} // verus!

