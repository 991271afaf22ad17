//! Bounded lazy derivation generator: a worklist of sentential forms over
//! a simplified grammar, expanded one form per step, yielding terminal
//! strings whose lengths fall within the configured bounds.

use vstd::prelude::*;
use crate::cfg::CFG;
use crate::cfg::Nonterminal;
use crate::cfg::Symbol;
use crate::cfg::alpha_spec;
use crate::cfg::has_eps_on;
use crate::cfg::last_free_in;
use crate::cfg::prods_contain;
use crate::cfg::rhs_has_nt;
use crate::cfg::simplify_rel;

verus! {

/// The outcome of one worklist step.
pub enum GenStep {
    /// A terminal string (or the empty string) was produced.
    Yielded(Vec<Symbol>),
    /// A form was discarded or expanded; more work may remain.
    Continued,
    /// The worklist is empty: the enumeration is finished.
    Exhausted,
}

/// An expansion index entry exists for the nonterminal.
pub open spec fn keys_contain(rules: Seq<(Nonterminal, Vec<Vec<Symbol>>)>, a: Nonterminal) -> bool {
    exists|i: int| 0 <= i < rules.len() && (#[trigger] rules[i]).0 == a
}

/// The sequence `w` is the right-hand side of some production of `ps`
/// whose left symbol is `a`.
pub open spec fn alt_from(ps: Seq<crate::cfg::Production>, a: Nonterminal, w: Seq<Symbol>) -> bool {
    exists|j: int| 0 <= j < ps.len() && (#[trigger] ps[j]@).left == a && ps[j]@.right == w
}

/// The right-hand sides of the productions whose left symbol is `a`, in
/// production-list order.
pub open spec fn lefts_filter(ps: Seq<crate::cfg::Production>, a: Nonterminal) -> Seq<Seq<Symbol>>
    decreases ps.len(),
{
    if ps.len() == 0 {
        Seq::empty()
    } else {
        let rest = lefts_filter(ps.drop_first(), a);
        if ps[0]@.left == a {
            seq![ps[0]@.right] + rest
        } else {
            rest
        }
    }
}

proof fn lemma_lefts_filter_absent(ps: Seq<crate::cfg::Production>, a: Nonterminal)
    requires
        forall|j: int| 0 <= j < ps.len() ==> (#[trigger] ps[j]@).left != a,
    ensures
        lefts_filter(ps, a) == Seq::<Seq<Symbol>>::empty(),
    decreases ps.len(),
{
    if ps.len() > 0 {
        assert(forall|j: int| 0 <= j < ps.drop_first().len() ==> (
        #[trigger] ps.drop_first()[j]@).left != a);
        lemma_lefts_filter_absent(ps.drop_first(), a);
    }
}

/// The expansion index is exactly the production list grouped by left
/// symbol: one entry per distinct left symbol, holding that symbol's
/// right-hand sides in production-list order.
pub open spec fn index_exact(
    rules: Seq<(Nonterminal, Vec<Vec<Symbol>>)>,
    ps: Seq<crate::cfg::Production>,
) -> bool {
    &&& forall|e1: int, e2: int|
        0 <= e1 < e2 < rules.len() ==> (#[trigger] rules[e1]).0 != (#[trigger] rules[e2]).0
    &&& forall|e: int| 0 <= e < rules.len() ==> exists|j: int|
        0 <= j < ps.len() && (#[trigger] ps[j]@).left == (#[trigger] rules[e]).0
    &&& forall|j: int| 0 <= j < ps.len() ==> keys_contain(rules, (#[trigger] ps[j]@).left)
    &&& forall|e: int|
        0 <= e < rules.len() ==> (#[trigger] rules[e]).1@.map_values(|v: Vec<Symbol>| v@)
            == lefts_filter(ps, rules[e].0)
}

/// Every nonterminal of the form has an entry in the expansion index.
pub open spec fn form_ok(rules: Seq<(Nonterminal, Vec<Vec<Symbol>>)>, form: Seq<Symbol>) -> bool {
    forall|k: int|
        0 <= k < form.len() ==> ((#[trigger] form[k]) is N ==> keys_contain(
            rules,
            Nonterminal { symbol: form[k].spec_symbol() },
        ))
}

/// Every symbol of the form is a terminal.
pub open spec fn all_terminal(form: Seq<Symbol>) -> bool {
    forall|k: int| 0 <= k < form.len() ==> (#[trigger] form[k]) is T
}

/// The form with the symbol at `idx` replaced by the alternative.
pub open spec fn expand_at(form: Seq<Symbol>, idx: int, alt: Seq<Symbol>) -> Seq<Symbol> {
    form.take(idx) + alt + form.skip(idx + 1)
}

/// `idx` is the expansion position in the form: its leftmost nonterminal
/// occurrence when `leftmost` holds, its rightmost one otherwise.
pub open spec fn chosen_nt_index(form: Seq<Symbol>, leftmost: bool, idx: int) -> bool {
    &&& 0 <= idx < form.len()
    &&& form[idx] is N
    &&& if leftmost {
        forall|x: int| 0 <= x < idx ==> !((#[trigger] form[x]) is N)
    } else {
        forall|x: int| idx < x < form.len() ==> !((#[trigger] form[x]) is N)
    }
}

/// The lazy derivation enumerator. `rules` indexes the simplified
/// grammar's productions by left symbol; `queue` is the worklist of
/// sentential forms; `left` selects leftmost (else rightmost) expansion.
pub struct Generator {
    pub left: bool,
    pub rules: Vec<(Nonterminal, Vec<Vec<Symbol>>)>,
    pub queue: Vec<Vec<Symbol>>,
    pub min_len: usize,
    pub max_len: usize,
}

impl Generator {
    /// Every form in the worklist and every alternative in the index can
    /// always be expanded further: their nonterminals all have entries.
    pub open spec fn wf(self) -> bool {
        &&& forall|e: int, t: int|
            0 <= e < self.rules@.len() && 0 <= t < (#[trigger] self.rules@[e]).1@.len()
                ==> form_ok(self.rules@, #[trigger] self.rules@[e].1@[t]@)
        &&& forall|q: int| 0 <= q < self.queue@.len() ==> form_ok(
            self.rules@,
            #[trigger] self.queue@[q]@,
        )
    }

    /// Builds the generator: simplifies the grammar, indexes its
    /// productions by left symbol, and seeds the worklist with the start
    /// symbol's alternatives. The simplification pipeline guarantees that
    /// every nonterminal reachable from the worklist keeps an entry, so
    /// expansion can never get stuck.
    #[verifier::loop_isolation(false)]
    #[verifier::rlimit(100)]
    pub fn new(grammar: CFG, lmin: u32, lmax: u32, left: bool) -> (g: Generator)
        requires
            grammar.wf(),
            has_eps_on(grammar.productions@, grammar.start) ==> last_free_in(
                alpha_spec(),
                grammar.variables@,
            ) is Some,
        ensures
            g.wf(),
            g.left == left,
            g.min_len == lmin as usize,
            g.max_len == lmax as usize,
            exists|s: CFG|
                #![trigger simplify_rel(grammar, s)]
                simplify_rel(grammar, s) && index_exact(g.rules@, s.productions@)
                    && g.queue@.map_values(|f: Vec<Symbol>| f@) == lefts_filter(
                    s.productions@,
                    s.start,
                ),
    {
        let simplified = grammar.simplify();
        let ghost ps = simplified.productions@;
        let mut rules: Vec<(Nonterminal, Vec<Vec<Symbol>>)> = Vec::new();
        let mut i: usize = 0;
        while i < simplified.productions.len()
            invariant
                i <= simplified.productions.len(),
                forall|j: int| 0 <= j < i ==> keys_contain(rules@, (#[trigger] ps[j]@).left),
                forall|e: int, t: int|
                    0 <= e < rules@.len() && 0 <= t < rules@[e].1@.len() ==> #[trigger] alt_from(
                        ps,
                        rules@[e].0,
                        rules@[e].1@[t]@,
                    ),
                forall|e1: int, e2: int|
                    0 <= e1 < e2 < rules@.len() ==> (#[trigger] rules@[e1]).0 != (
                    #[trigger] rules@[e2]).0,
                forall|e: int| 0 <= e < rules@.len() ==> exists|j: int|
                    0 <= j < ps.len() && (#[trigger] ps[j]@).left == (#[trigger] rules@[e]).0,
                forall|e: int|
                    0 <= e < rules@.len() ==> (#[trigger] rules@[e]).1@.map_values(
                        |v: Vec<Symbol>| v@,
                    ) == lefts_filter(ps, rules@[e].0),
            decreases simplified.productions.len() - i,
        {
            let left_sym = simplified.productions[i].left;
            if !key_present(&rules, left_sym) {
                let mut alts: Vec<Vec<Symbol>> = Vec::new();
                proof {
                    assert(ps.skip(0) =~= ps);
                    assert(alts@.map_values(|v: Vec<Symbol>| v@) + lefts_filter(ps, left_sym)
                        =~= lefts_filter(ps, left_sym));
                }
                let mut j: usize = 0;
                while j < simplified.productions.len()
                    invariant
                        j <= simplified.productions.len(),
                        i < simplified.productions.len(),
                        left_sym == ps[i as int]@.left,
                        forall|t: int| 0 <= t < alts@.len() ==> #[trigger] alt_from(
                            ps,
                            left_sym,
                            alts@[t]@,
                        ),
                        alts@.map_values(|v: Vec<Symbol>| v@) + lefts_filter(
                            ps.skip(j as int),
                            left_sym,
                        ) == lefts_filter(ps, left_sym),
                    decreases simplified.productions.len() - j,
                {
                    proof {
                        assert(ps.skip(j as int)[0] == ps[j as int]);
                        assert(ps.skip(j as int).drop_first() =~= ps.skip(j + 1 as int));
                    }
                    if simplified.productions[j].left == left_sym {
                        let w = clone_form(&simplified.productions[j].right);
                        proof {
                            assert((#[trigger] ps[j as int]@).left == left_sym);
                            assert(ps[j as int]@.right == w@);
                        }
                        let ghost alts_snap = alts@;
                        alts.push(w);
                        proof {
                            assert(forall|x: int| 0 <= x < alts_snap.len() ==> alts@[x]
                                == alts_snap[x]);
                            assert(alts@[alts@.len() - 1] == w);
                            assert(alt_from(ps, left_sym, w@));
                            assert(alts@.map_values(|v: Vec<Symbol>| v@)
                                =~= alts_snap.map_values(|v: Vec<Symbol>| v@).push(w@));
                            assert(alts_snap.map_values(|v: Vec<Symbol>| v@).push(w@)
                                + lefts_filter(ps.skip(j + 1 as int), left_sym)
                                =~= alts_snap.map_values(|v: Vec<Symbol>| v@) + (seq![w@]
                                + lefts_filter(ps.skip(j + 1 as int), left_sym)));
                        }
                    }
                    j = j + 1;
                }
                proof {
                    assert(ps.skip(ps.len() as int) =~= Seq::<crate::cfg::Production>::empty());
                    assert(alts@.map_values(|v: Vec<Symbol>| v@) + lefts_filter(
                        Seq::<crate::cfg::Production>::empty(),
                        left_sym,
                    ) =~= alts@.map_values(|v: Vec<Symbol>| v@));
                    assert(alts@.map_values(|v: Vec<Symbol>| v@) == lefts_filter(ps, left_sym));
                    assert(!keys_contain(rules@, left_sym));
                }
                let ghost rules_snap = rules@;
                rules.push((left_sym, alts));
                proof {
                    assert(forall|w: int| 0 <= w < rules_snap.len() ==> rules@[w]
                        == rules_snap[w]);
                    assert(rules@[rules@.len() - 1].0 == left_sym);
                    assert(keys_contain(rules@, left_sym));
                    assert forall|j2: int| 0 <= j2 < i implies keys_contain(
                        rules@,
                        (#[trigger] ps[j2]@).left,
                    ) by {
                        let w = choose|w: int|
                            0 <= w < rules_snap.len() && (#[trigger] rules_snap[w]).0
                                == ps[j2]@.left;
                        assert((rules@[w]).0 == ps[j2]@.left);
                    }
                    assert forall|e2: int, t2: int|
                        0 <= e2 < rules@.len() && 0 <= t2 < rules@[e2].1@.len() implies
                        #[trigger] alt_from(ps, rules@[e2].0, rules@[e2].1@[t2]@) by {
                        if e2 < rules_snap.len() {
                            assert(rules@[e2] == rules_snap[e2]);
                            assert(alt_from(ps, rules_snap[e2].0, rules_snap[e2].1@[t2]@));
                        } else {
                            assert(rules@[e2].1 == alts);
                            assert(rules@[e2].0 == left_sym);
                            assert(rules@[e2].1@[t2] == alts@[t2]);
                            assert(alt_from(ps, left_sym, alts@[t2]@));
                        }
                    }
                    assert forall|e1: int, e2: int|
                        0 <= e1 < e2 < rules@.len() implies (#[trigger] rules@[e1]).0 != (
                    #[trigger] rules@[e2]).0 by {
                        assert(rules@[e1] == rules_snap[e1]);
                        if e2 < rules_snap.len() {
                            assert(rules@[e2] == rules_snap[e2]);
                        } else {
                            assert(rules@[e2].0 == left_sym);
                        }
                    }
                    assert forall|e2: int| 0 <= e2 < rules@.len() implies exists|j2: int|
                        0 <= j2 < ps.len() && (#[trigger] ps[j2]@).left == (
                        #[trigger] rules@[e2]).0 by {
                        if e2 < rules_snap.len() {
                            assert(rules@[e2] == rules_snap[e2]);
                        } else {
                            assert((#[trigger] ps[i as int]@).left == rules@[e2].0);
                        }
                    }
                    assert forall|e2: int| 0 <= e2 < rules@.len() implies (
                    #[trigger] rules@[e2]).1@.map_values(|v: Vec<Symbol>| v@) == lefts_filter(
                        ps,
                        rules@[e2].0,
                    ) by {
                        if e2 < rules_snap.len() {
                            assert(rules@[e2] == rules_snap[e2]);
                            assert(rules_snap[e2].1@.map_values(|v: Vec<Symbol>| v@)
                                == lefts_filter(ps, rules_snap[e2].0));
                        } else {
                            assert(rules@[e2].1 == alts);
                            assert(rules@[e2].0 == left_sym);
                        }
                    }
                }
            }
            i = i + 1;
        }
        // The index is complete: every right-hand nonterminal of the
        // simplified grammar has an entry, so every alternative is a
        // well-formed sentential form.
        proof {
            assert forall|e: int, t: int|
                0 <= e < rules@.len() && 0 <= t < (#[trigger] rules@[e]).1@.len() implies form_ok(
                rules@,
                #[trigger] rules@[e].1@[t]@,
            ) by {
                assert(alt_from(ps, rules@[e].0, rules@[e].1@[t]@));
                let jx = choose|j: int|
                    0 <= j < ps.len() && (#[trigger] ps[j]@).left == rules@[e].0 && ps[j]@.right
                        == rules@[e].1@[t]@;
                let form = rules@[e].1@[t]@;
                assert forall|k: int| 0 <= k < form.len() implies ((#[trigger] form[k]) is N
                    ==> keys_contain(rules@, Nonterminal { symbol: form[k].spec_symbol() })) by {
                    if form[k] is N {
                        let a = Nonterminal { symbol: form[k].spec_symbol() };
                        assert(ps[jx]@.right[k] == Symbol::N(a));
                        assert(rhs_has_nt(ps[jx]@, a));
                        assert(prods_contain(ps, ps[jx]@));
                        let kq = choose|kx: int|
                            0 <= kx < ps.len() && (#[trigger] ps[kx]@).left == a;
                        assert(keys_contain(rules@, (#[trigger] ps[kq]@).left));
                    }
                }
            }
        }
        let mut queue: Vec<Vec<Symbol>> = Vec::new();
        let mut e: usize = 0;
        let mut found = false;
        while e < rules.len() && !found
            invariant
                e <= rules.len(),
                forall|e2: int, t: int|
                    0 <= e2 < rules@.len() && 0 <= t < (#[trigger] rules@[e2]).1@.len()
                        ==> form_ok(rules@, #[trigger] rules@[e2].1@[t]@),
                forall|q: int| 0 <= q < queue@.len() ==> form_ok(rules@, #[trigger] queue@[q]@),
                !found ==> queue@.len() == 0 && (forall|x: int|
                    0 <= x < e ==> (#[trigger] rules@[x]).0 != simplified.start),
                found ==> queue@.map_values(|f: Vec<Symbol>| f@) == lefts_filter(
                    ps,
                    simplified.start,
                ),
            decreases rules.len() - e,
        {
            if rules[e].0 == simplified.start {
                found = true;
                proof {
                    assert(queue@.map_values(|f: Vec<Symbol>| f@)
                        =~= rules@[e as int].1@.map_values(|v: Vec<Symbol>| v@).take(0));
                }
                let mut t: usize = 0;
                while t < rules[e].1.len()
                    invariant
                        t <= rules@[e as int].1@.len(),
                        e < rules@.len(),
                        rules@[e as int].0 == simplified.start,
                        forall|e2: int, t2: int|
                            0 <= e2 < rules@.len() && 0 <= t2 < (#[trigger] rules@[e2]).1@.len()
                                ==> form_ok(rules@, #[trigger] rules@[e2].1@[t2]@),
                        forall|q: int| 0 <= q < queue@.len() ==> form_ok(
                            rules@,
                            #[trigger] queue@[q]@,
                        ),
                        queue@.map_values(|f: Vec<Symbol>| f@) == rules@[e as int].1@.map_values(
                            |v: Vec<Symbol>| v@,
                        ).take(t as int),
                    decreases rules@[e as int].1@.len() - t,
                {
                    let w = clone_form(&rules[e].1[t]);
                    proof {
                        assert(form_ok(rules@, rules@[e as int].1@[t as int]@));
                        assert(w@ == rules@[e as int].1@[t as int]@);
                    }
                    let ghost queue_snap = queue@;
                    queue.push(w);
                    proof {
                        assert(queue@.map_values(|f: Vec<Symbol>| f@)
                            =~= queue_snap.map_values(|f: Vec<Symbol>| f@).push(w@));
                        assert(queue@.map_values(|f: Vec<Symbol>| f@)
                            =~= rules@[e as int].1@.map_values(|v: Vec<Symbol>| v@).take(
                            t + 1 as int,
                        ));
                    }
                    t = t + 1;
                }
                proof {
                    assert(rules@[e as int].1@.map_values(|v: Vec<Symbol>| v@).take(
                        rules@[e as int].1@.len() as int,
                    ) =~= rules@[e as int].1@.map_values(|v: Vec<Symbol>| v@));
                    assert(queue@.map_values(|f: Vec<Symbol>| f@) == lefts_filter(
                        ps,
                        simplified.start,
                    ));
                }
            }
            e = e + 1;
        }
        proof {
            if !found {
                assert forall|j: int| 0 <= j < ps.len() implies (#[trigger] ps[j]@).left
                    != simplified.start by {
                    if ps[j]@.left == simplified.start {
                        let w = choose|x: int|
                            0 <= x < rules@.len() && (#[trigger] rules@[x]).0 == ps[j]@.left;
                        assert(false);
                    }
                }
                lemma_lefts_filter_absent(ps, simplified.start);
                assert(queue@.map_values(|f: Vec<Symbol>| f@) =~= Seq::<Seq<Symbol>>::empty());
            }
        }
        let result = Generator {
            left,
            rules,
            queue,
            min_len: lmin as usize,
            max_len: lmax as usize,
        };
        proof {
            assert(simplify_rel(grammar, simplified));
            assert(index_exact(result.rules@, ps));
            assert(result.queue@.map_values(|f: Vec<Symbol>| f@) == lefts_filter(
                ps,
                simplified.start,
            ));
        }
        result
    }

    /// One step of the pull-based enumeration: pop the front sentential
    /// form; yield it if it is the empty string or an in-bounds terminal
    /// string; discard it if over-length or an out-of-bounds terminal
    /// string; otherwise expand its leftmost (or rightmost) nonterminal
    /// with every alternative, pushing the results to the back.
    /// A yielded non-empty string always lies within the length bounds
    /// and consists of terminals only.
    #[verifier::loop_isolation(false)]
    #[verifier::rlimit(100)]
    pub fn step(&mut self) -> (r: GenStep)
        requires
            old(self).wf(),
        ensures
            final(self).wf(),
            final(self).rules == old(self).rules,
            final(self).left == old(self).left,
            final(self).min_len == old(self).min_len,
            final(self).max_len == old(self).max_len,
            (r is Exhausted) <==> old(self).queue@.len() == 0,
            r is Exhausted ==> final(self).queue == old(self).queue,
            match r {
                GenStep::Yielded(s) => (s@.len() == 0 || (old(self).min_len <= s@.len()
                    && s@.len() <= old(self).max_len && forall|k: int|
                    0 <= k < s@.len() ==> (#[trigger] s@[k]) is T)) && old(self).queue@.len() > 0
                    && s@ == old(self).queue@[0]@ && final(self).queue@
                    == old(self).queue@.drop_first(),
                _ => true,
            },
            old(self).queue@.len() > 0 ==> ((r is Yielded) <==> (old(self).queue@[0]@.len() == 0
                || (old(self).queue@[0]@.len() <= old(self).max_len && all_terminal(
                old(self).queue@[0]@,
            ) && old(self).queue@[0]@.len() >= old(self).min_len))),
            r is Continued ==> ({
                let form = old(self).queue@[0]@;
                if form.len() > old(self).max_len || all_terminal(form) {
                    final(self).queue@ == old(self).queue@.drop_first()
                } else {
                    exists|idx: int, en: int|
                        #![trigger chosen_nt_index(form, old(self).left, idx), old(self).rules@[en]]
                        chosen_nt_index(form, old(self).left, idx)
                            && 0 <= en < old(self).rules@.len()
                            && form[idx] == Symbol::N(old(self).rules@[en].0)
                            && final(self).queue@.map_values(|f: Vec<Symbol>| f@)
                            == old(self).queue@.drop_first().map_values(|f: Vec<Symbol>| f@)
                            + old(self).rules@[en].1@.map_values(
                            |alt: Vec<Symbol>| expand_at(form, idx, alt@),
                        )
                }
            }),
    {
        if self.queue.len() == 0 {
            return GenStep::Exhausted;
        }
        let next_item = self.queue.remove(0);
        let ghost form = next_item@;
        let ghost base_q = self.queue@;
        proof {
            assert(form == old(self).queue@[0]@);
            assert(form_ok(self.rules@, form));
            assert(forall|q: int| 0 <= q < self.queue@.len() ==> self.queue@[q]
                == old(self).queue@[q + 1]);
            assert(base_q =~= old(self).queue@.drop_first());
        }
        if next_item.len() == 0 {
            return GenStep::Yielded(next_item);
        }
        if next_item.len() > self.max_len {
            return GenStep::Continued;
        }
        // Find the nonterminal occurrence to expand, if any.
        let mut idx: usize = 0;
        let mut has_nt = false;
        let mut k: usize = 0;
        while k < next_item.len()
            invariant
                k <= next_item.len(),
                next_item@ == form,
                has_nt ==> idx < form.len() && form[idx as int] is N,
                has_nt == exists|x: int| 0 <= x < k && (#[trigger] form[x]) is N,
                (self.left && has_nt) ==> (form[idx as int] is N && forall|x: int|
                    0 <= x < idx ==> !((#[trigger] form[x]) is N)),
                (!self.left && has_nt) ==> forall|x: int|
                    idx < x < k ==> !((#[trigger] form[x]) is N),
            decreases next_item.len() - k,
        {
            let is_n = next_item[k].is_nonterminal();
            if is_n {
                if !self.left {
                    idx = k;
                    has_nt = true;
                } else {
                    if !has_nt {
                        idx = k;
                        has_nt = true;
                    }
                }
            }
            k = k + 1;
        }
        proof {
            if has_nt {
                assert(chosen_nt_index(form, self.left, idx as int));
            } else {
                assert(all_terminal(form));
            }
        }
        if !has_nt {
            // A terminal-only form: yield it when long enough.
            if next_item.len() >= self.min_len {
                proof {
                    assert(forall|x: int| 0 <= x < form.len() ==> (#[trigger] form[x]) is T);
                }
                return GenStep::Yielded(next_item);
            } else {
                return GenStep::Continued;
            }
        }
        let target = match next_item[idx] {
            Symbol::N(a) => a,
            Symbol::T(_) => {
                proof {
                    assert(false);
                }
                Nonterminal::new('A')
            },
        };
        // The expansion index always has an entry for the target: the
        // simplified grammar keeps a production for every right-hand
        // nonterminal.
        let mut entry: usize = 0;
        let mut have_entry = false;
        let mut e: usize = 0;
        while e < self.rules.len()
            invariant
                e <= self.rules@.len(),
                have_entry ==> entry < self.rules@.len() && self.rules@[entry as int].0 == target,
                !have_entry ==> forall|x: int| 0 <= x < e ==> (#[trigger] self.rules@[x]).0
                    != target,
            decreases self.rules@.len() - e,
        {
            if !have_entry && self.rules[e].0 == target {
                entry = e;
                have_entry = true;
            }
            e = e + 1;
        }
        proof {
            assert(form[idx as int] == Symbol::N(target));
            assert(keys_contain(self.rules@, target));
            if !have_entry {
                let w = choose|i: int|
                    0 <= i < self.rules@.len() && (#[trigger] self.rules@[i]).0 == target;
                assert(false);
            }
        }
        // Splice every alternative into the form at the chosen position.
        proof {
            assert(self.queue@.map_values(|f: Vec<Symbol>| f@) =~= base_q.map_values(
                |f: Vec<Symbol>| f@,
            ) + self.rules@[entry as int].1@.map_values(
                |alt: Vec<Symbol>| expand_at(form, idx as int, alt@),
            ).take(0));
        }
        let mut t: usize = 0;
        while t < self.rules[entry].1.len()
            invariant
                t <= self.rules@[entry as int].1@.len(),
                entry < self.rules@.len(),
                self.rules == old(self).rules,
                self.left == old(self).left,
                self.min_len == old(self).min_len,
                self.max_len == old(self).max_len,
                idx < form.len(),
                form_ok(self.rules@, form),
                forall|q: int| 0 <= q < self.queue@.len() ==> form_ok(
                    self.rules@,
                    #[trigger] self.queue@[q]@,
                ),
                self.queue@.map_values(|f: Vec<Symbol>| f@) == base_q.map_values(
                    |f: Vec<Symbol>| f@,
                ) + self.rules@[entry as int].1@.map_values(
                    |alt: Vec<Symbol>| expand_at(form, idx as int, alt@),
                ).take(t as int),
            decreases self.rules@[entry as int].1@.len() - t,
        {
            let mut new_seq: Vec<Symbol> = Vec::new();
            proof {
                assert(new_seq@ =~= form.take(0));
            }
            let mut p: usize = 0;
            while p < idx
                invariant
                    p <= idx,
                    idx < next_item@.len(),
                    next_item@ == form,
                    form_ok(self.rules@, form),
                    new_seq@ == form.take(p as int),
                    forall|x: int| 0 <= x < new_seq@.len() ==> ((#[trigger] new_seq@[x]) is N
                        ==> keys_contain(
                        self.rules@,
                        Nonterminal { symbol: new_seq@[x].spec_symbol() },
                    )),
                decreases idx - p,
            {
                new_seq.push(next_item[p]);
                proof {
                    assert(new_seq@ =~= form.take(p + 1 as int));
                }
                p = p + 1;
            }
            let mut q2: usize = 0;
            while q2 < self.rules[entry].1[t].len()
                invariant
                    q2 <= self.rules@[entry as int].1@[t as int]@.len(),
                    entry < self.rules@.len(),
                    t < self.rules@[entry as int].1@.len(),
                    idx < form.len(),
                    new_seq@ == form.take(idx as int) + self.rules@[entry as int].1@[
                        t as int
                    ]@.take(q2 as int),
                    forall|e2: int, t2: int|
                        0 <= e2 < self.rules@.len() && 0 <= t2 < (
                        #[trigger] self.rules@[e2]).1@.len() ==> form_ok(
                            self.rules@,
                            #[trigger] self.rules@[e2].1@[t2]@,
                        ),
                    forall|x: int| 0 <= x < new_seq@.len() ==> ((#[trigger] new_seq@[x]) is N
                        ==> keys_contain(
                        self.rules@,
                        Nonterminal { symbol: new_seq@[x].spec_symbol() },
                    )),
                decreases self.rules@[entry as int].1@[t as int]@.len() - q2,
            {
                proof {
                    assert(form_ok(self.rules@, self.rules@[entry as int].1@[t as int]@));
                }
                new_seq.push(self.rules[entry].1[t][q2]);
                proof {
                    assert(new_seq@ =~= form.take(idx as int) + self.rules@[entry as int].1@[
                        t as int
                    ]@.take(q2 + 1 as int));
                }
                q2 = q2 + 1;
            }
            proof {
                assert(self.rules@[entry as int].1@[t as int]@.take(
                    self.rules@[entry as int].1@[t as int]@.len() as int,
                ) =~= self.rules@[entry as int].1@[t as int]@);
            }
            let mut p2: usize = idx + 1;
            proof {
                assert(new_seq@ =~= form.take(idx as int) + self.rules@[entry as int].1@[
                    t as int
                ]@ + form.subrange(idx + 1 as int, idx + 1 as int));
            }
            while p2 < next_item.len()
                invariant
                    idx < p2,
                    p2 <= next_item@.len(),
                    next_item@ == form,
                    form_ok(self.rules@, form),
                    t < self.rules@[entry as int].1@.len(),
                    new_seq@ == form.take(idx as int) + self.rules@[entry as int].1@[t as int]@
                        + form.subrange(idx + 1 as int, p2 as int),
                    forall|x: int| 0 <= x < new_seq@.len() ==> ((#[trigger] new_seq@[x]) is N
                        ==> keys_contain(
                        self.rules@,
                        Nonterminal { symbol: new_seq@[x].spec_symbol() },
                    )),
                decreases next_item@.len() - p2,
            {
                new_seq.push(next_item[p2]);
                proof {
                    assert(new_seq@ =~= form.take(idx as int) + self.rules@[entry as int].1@[
                        t as int
                    ]@ + form.subrange(idx + 1 as int, p2 + 1 as int));
                }
                p2 = p2 + 1;
            }
            proof {
                assert(form_ok(self.rules@, new_seq@));
                assert(form.subrange(idx + 1 as int, form.len() as int) =~= form.skip(
                    idx + 1 as int,
                ));
                assert(new_seq@ =~= expand_at(
                    form,
                    idx as int,
                    self.rules@[entry as int].1@[t as int]@,
                ));
            }
            let ghost queue_snap = self.queue@;
            self.queue.push(new_seq);
            proof {
                assert(self.queue@.map_values(|f: Vec<Symbol>| f@) =~= queue_snap.map_values(
                    |f: Vec<Symbol>| f@,
                ).push(new_seq@));
                assert(self.queue@.map_values(|f: Vec<Symbol>| f@) =~= base_q.map_values(
                    |f: Vec<Symbol>| f@,
                ) + self.rules@[entry as int].1@.map_values(
                    |alt: Vec<Symbol>| expand_at(form, idx as int, alt@),
                ).take(t + 1 as int));
            }
            t = t + 1;
        }
        proof {
            assert(self.rules@[entry as int].1@.map_values(
                |alt: Vec<Symbol>| expand_at(form, idx as int, alt@),
            ).take(self.rules@[entry as int].1@.len() as int) =~= self.rules@[entry as int].1@.map_values(
                |alt: Vec<Symbol>| expand_at(form, idx as int, alt@),
            ));
            assert(chosen_nt_index(form, self.left, idx as int));
            assert(form[idx as int] == Symbol::N(self.rules@[entry as int].0));
        }
        GenStep::Continued
    }
}

/// A copy of a sentential form.
fn clone_form(v: &Vec<Symbol>) -> (r: Vec<Symbol>)
    ensures
        r@ == v@,
{
    let mut r: Vec<Symbol> = Vec::new();
    let mut i: usize = 0;
    while i < v.len()
        invariant
            i <= v.len(),
            r@ == v@.take(i as int),
        decreases v.len() - i,
    {
        r.push(v[i]);
        proof {
            assert(r@ =~= v@.take(i + 1 as int));
        }
        i = i + 1;
    }
    proof {
        assert(r@ =~= v@);
    }
    r
}

/// Whether the expansion index already has an entry for the nonterminal.
fn key_present(rules: &Vec<(Nonterminal, Vec<Vec<Symbol>>)>, a: Nonterminal) -> (r: bool)
    ensures
        r == keys_contain(rules@, a),
{
    let mut i: usize = 0;
    while i < rules.len()
        invariant
            i <= rules.len(),
            forall|x: int| 0 <= x < i ==> (#[trigger] rules@[x]).0 != a,
        decreases rules.len() - i,
    {
        if rules[i].0 == a {
            return true;
        }
        i = i + 1;
    }
    false
}

/// The set of terminal strings a run of the generator produced. Held as
/// a duplicate-free list: `insert` collapses repeats, as a set would.
pub struct GeneratedSet(pub Vec<Vec<Symbol>>);

/// A string is held by the list.
pub open spec fn set_contains(items: Seq<Vec<Symbol>>, w: Seq<Symbol>) -> bool {
    exists|k: int| 0 <= k < items.len() && (#[trigger] items[k])@ == w
}

/// No string is listed twice.
pub open spec fn distinct_forms(items: Seq<Vec<Symbol>>) -> bool {
    forall|i: int, j: int|
        0 <= i < j < items.len() ==> (#[trigger] items[i])@ != (#[trigger] items[j])@
}

/// The display text of the collected strings: one line per string, its
/// symbols' characters run together.
pub open spec fn display_of(items: Seq<Vec<Symbol>>) -> Seq<char>
    decreases items.len(),
{
    if items.len() == 0 {
        Seq::empty()
    } else {
        crate::cfg::rhs_chars(items[0]@) + "\n"@ + display_of(items.drop_first())
    }
}

impl GeneratedSet {
    /// Adds a generated string unless it was already collected: the
    /// duplicates an ambiguous grammar produces collapse here.
    #[verifier::loop_isolation(false)]
    pub fn insert(&mut self, item: Vec<Symbol>)
        requires
            distinct_forms(old(self).0@),
        ensures
            distinct_forms(final(self).0@),
            forall|w: Seq<Symbol>|
                set_contains(final(self).0@, w) <==> (set_contains(old(self).0@, w) || w
                    == item@),
    {
        let mut i: usize = 0;
        while i < self.0.len()
            invariant
                i <= self.0@.len(),
                self.0@ == old(self).0@,
                forall|k: int| 0 <= k < i ==> (#[trigger] self.0@[k])@ != item@,
            decreases self.0@.len() - i,
        {
            if crate::cfg::sym_vec_eq(&self.0[i], &item) {
                proof {
                    assert(set_contains(self.0@, item@));
                }
                return ;
            }
            i = i + 1;
        }
        let ghost snap = self.0@;
        self.0.push(item);
        proof {
            assert(forall|k: int| 0 <= k < snap.len() ==> self.0@[k] == snap[k]);
            assert((self.0@[self.0@.len() - 1])@ == item@);
            assert(forall|w: Seq<Symbol>| set_contains(snap, w) ==> set_contains(self.0@, w));
            assert(set_contains(self.0@, item@));
            assert(forall|w: Seq<Symbol>| set_contains(self.0@, w) ==> (set_contains(snap, w)
                || w == item@));
        }
    }

    /// One line per collected string: its symbols' characters run
    /// together.
    pub fn to_display_string(&self) -> (r: String)
        ensures
            r@ == display_of(self.0@),
    {
        let ghost items = self.0@;
        let mut out = String::new();
        proof {
            assert(items.skip(0) =~= items);
            assert(out@ + display_of(items) =~= display_of(items));
        }
        let mut i: usize = 0;
        while i < self.0.len()
            invariant
                i <= items.len(),
                self.0@ == items,
                out@ + display_of(items.skip(i as int)) == display_of(items),
            decreases self.0.len() - i,
        {
            proof {
                assert(items.skip(i as int)[0] == items[i as int]);
                assert(items.skip(i as int).drop_first() =~= items.skip(i + 1 as int));
            }
            let item = &self.0[i];
            let mut word: Vec<char> = Vec::new();
            proof {
                assert(word@ =~= crate::cfg::rhs_chars(item@).take(0));
            }
            let mut k: usize = 0;
            while k < item.len()
                invariant
                    k <= item@.len(),
                    item == items[i as int],
                    i < items.len(),
                    word@ == crate::cfg::rhs_chars(item@).take(k as int),
                decreases item.len() - k,
            {
                word.push(item[k].get_symbol());
                proof {
                    assert(word@ =~= crate::cfg::rhs_chars(item@).take(k + 1 as int));
                }
                k = k + 1;
            }
            proof {
                assert(word@ =~= crate::cfg::rhs_chars(items[i as int]@));
            }
            let word_str = crate::cfg::chars_to_string(&word);
            out.append(word_str.as_str());
            out.append("\n");
            i = i + 1;
        }
        proof {
            assert(items.skip(items.len() as int) =~= Seq::<Vec<Symbol>>::empty());
            assert(out@ =~= display_of(items));
        }
        out
    }
}

} // verus!
