//! Context-free grammar model and the four simplification passes:
//! epsilon-production removal, unit-production removal, useless-symbol
//! removal and unreachable-symbol removal, composed into `simplify`.

use vstd::prelude::*;
use vstd::string::StrSliceExecFns;

verus! {

/// A grammar variable, wrapping its single-character name.
#[derive(PartialEq, Eq, Structural, Clone, Copy, Debug)]
pub struct Nonterminal {
    pub symbol: char,
}

impl Nonterminal {
    pub fn new(from: char) -> (r: Nonterminal)
        ensures
            r.symbol == from,
    {
        Nonterminal { symbol: from }
    }
}

/// An atomic symbol of the generated strings, wrapping its character.
#[derive(PartialEq, Eq, Structural, Clone, Copy, Debug)]
pub struct Terminal {
    pub symbol: char,
}

impl Terminal {
    pub fn new(from: char) -> (r: Terminal)
        ensures
            r.symbol == from,
    {
        Terminal { symbol: from }
    }
}

/// Whether a character names a terminal symbol: lowercase or numeric
/// characters are terminals, every other character is a nonterminal.
pub open spec fn is_terminal_char(c: char) -> bool {
    is_lower_char(c) || is_numeric_char(c)
}

pub uninterp spec fn is_lower_char(c: char) -> bool;

pub uninterp spec fn is_numeric_char(c: char) -> bool;

/// Relies on char::is_lowercase: whether the character has the Unicode
/// Lowercase property; a pure function of the character alone.
#[verifier::external_body]
fn char_is_lowercase(c: char) -> (r: bool)
    ensures
        r == is_lower_char(c),
{
    c.is_lowercase()
}

/// Relies on char::is_numeric: whether the character has a Unicode numeric
/// general category; a pure function of the character alone.
#[verifier::external_body]
fn char_is_numeric(c: char) -> (r: bool)
    ensures
        r == is_numeric_char(c),
{
    c.is_numeric()
}

/// A grammar symbol: either a nonterminal or a terminal.
#[derive(PartialEq, Eq, Structural, Clone, Copy, Debug)]
pub enum Symbol {
    N(Nonterminal),
    T(Terminal),
}

/// The classification a character receives when read as a grammar symbol.
pub open spec fn classify(c: char) -> Symbol {
    if is_terminal_char(c) {
        Symbol::T(Terminal { symbol: c })
    } else {
        Symbol::N(Nonterminal { symbol: c })
    }
}

impl Symbol {
    pub fn new(c: char) -> (r: Symbol)
        ensures
            r == classify(c),
    {
        if char_is_lowercase(c) || char_is_numeric(c) {
            Symbol::T(Terminal::new(c))
        } else {
            Symbol::N(Nonterminal::new(c))
        }
    }

    pub open spec fn spec_symbol(self) -> char {
        match self {
            Symbol::T(x) => x.symbol,
            Symbol::N(x) => x.symbol,
        }
    }

    pub fn get_symbol(&self) -> (c: char)
        ensures
            c == self.spec_symbol(),
    {
        match *self {
            Symbol::T(x) => x.symbol,
            Symbol::N(x) => x.symbol,
        }
    }

    pub fn is_nonterminal(&self) -> (r: bool)
        ensures
            r == (*self is N),
    {
        match *self {
            Symbol::T(_) => false,
            Symbol::N(_) => true,
        }
    }

    pub fn is_terminal(&self) -> (r: bool)
        ensures
            r == (*self is T),
    {
        !self.is_nonterminal()
    }

    pub fn as_nonterminal(&self) -> (r: Option<&Nonterminal>)
        ensures
            match r {
                Some(n) => *self == Symbol::N(*n),
                None => *self is T,
            },
    {
        match self {
            Symbol::T(_) => None,
            Symbol::N(x) => Some(x),
        }
    }
}

/// A rewrite rule: `left` may be replaced by the sequence `right`;
/// an empty `right` is an epsilon production.
#[derive(Debug)]
pub struct Production {
    pub left: Nonterminal,
    pub right: Vec<Symbol>,
}

impl Clone for Production {
    fn clone(&self) -> (r: Self)
        ensures
            r@ == self@,
    {
        let mut right: Vec<Symbol> = Vec::new();
        let mut i: usize = 0;
        while i < self.right.len()
            invariant
                i <= self.right.len(),
                right@ == self.right@.take(i as int),
            decreases self.right.len() - i,
        {
            right.push(self.right[i]);
            proof {
                assert(right@ =~= self.right@.take(i + 1 as int));
            }
            i = i + 1;
        }
        proof {
            assert(right@ =~= self.right@);
        }
        Production { left: self.left, right }
    }
}

/// The mathematical value of a production: its left symbol and the
/// sequence of its right-hand symbols.
#[verifier::ext_equal]
pub struct ProductionModel {
    pub left: Nonterminal,
    pub right: Seq<Symbol>,
}

impl View for Production {
    type V = ProductionModel;

    open spec fn view(&self) -> ProductionModel {
        ProductionModel { left: self.left, right: self.right@ }
    }
}

impl Production {
    pub fn new(l: Nonterminal, r: Vec<Symbol>) -> (p: Production)
        ensures
            p@.left == l,
            p@.right == r@,
    {
        Production { left: l, right: r }
    }
}

/// An epsilon production: empty right-hand side.
pub open spec fn is_eps(p: ProductionModel) -> bool {
    p.right.len() == 0
}

/// A unit production: the right-hand side is a single nonterminal.
pub open spec fn is_unit(p: ProductionModel) -> bool {
    p.right.len() == 1 && p.right[0] is N
}

/// The nonterminals occurring in the right-hand side of a production.
pub open spec fn rhs_has_nt(p: ProductionModel, a: Nonterminal) -> bool {
    exists|i: int| 0 <= i < p.right.len() && p.right[i] == Symbol::N(a)
}

/// Whether a sequence of productions holds the given production value.
pub open spec fn prods_contain(ps: Seq<Production>, m: ProductionModel) -> bool {
    exists|i: int| 0 <= i < ps.len() && #[trigger] ps[i]@ == m
}

/// Whether a production mentions a nonterminal, on its left or in its
/// right-hand side.
pub open spec fn prod_mentions(m: ProductionModel, a: Nonterminal) -> bool {
    m.left == a || rhs_has_nt(m, a)
}

/// Whether a nonterminal is a variable of a production list: it stands on
/// the left of some production or occurs in some right-hand side.
pub open spec fn is_variable_of(ps: Seq<Production>, a: Nonterminal) -> bool {
    exists|i: int| 0 <= i < ps.len() && prod_mentions(#[trigger] ps[i]@, a)
}

/// No two positions hold the same production value.
pub open spec fn distinct_prods(ps: Seq<Production>) -> bool {
    forall|i: int, j: int| 0 <= i < j < ps.len() ==> #[trigger] ps[i]@ != #[trigger] ps[j]@
}

/// No nonterminal is listed twice.
pub open spec fn distinct_nts(vs: Seq<Nonterminal>) -> bool {
    forall|i: int, j: int| 0 <= i < j < vs.len() ==> #[trigger] vs[i] != #[trigger] vs[j]
}

/// Decides equality of two symbol sequences.
pub(crate) fn sym_vec_eq(a: &Vec<Symbol>, b: &Vec<Symbol>) -> (r: bool)
    ensures
        r == (a@ == b@),
{
    if a.len() != b.len() {
        return false;
    }
    let mut i: usize = 0;
    while i < a.len()
        invariant
            i <= a.len(),
            a.len() == b.len(),
            forall|k: int| 0 <= k < i ==> a@[k] == b@[k],
        decreases a.len() - i,
    {
        if a[i] != b[i] {
            return false;
        }
        i = i + 1;
    }
    proof {
        assert(a@ =~= b@);
    }
    true
}

/// Decides whether two productions are the same rule.
fn prod_eq(a: &Production, b: &Production) -> (r: bool)
    ensures
        r == (a@ == b@),
{
    let r = a.left == b.left && sym_vec_eq(&a.right, &b.right);
    proof {
        if r {
            assert(a@ =~= b@);
        }
    }
    r
}

/// Decides membership of a nonterminal in a list.
fn contains_nt(v: &Vec<Nonterminal>, a: Nonterminal) -> (r: bool)
    ensures
        r == v@.contains(a),
{
    let mut i: usize = 0;
    while i < v.len()
        invariant
            i <= v.len(),
            forall|k: int| 0 <= k < i ==> v@[k] != a,
        decreases v.len() - i,
    {
        if v[i] == a {
            return true;
        }
        i = i + 1;
    }
    false
}

/// Inserts a nonterminal unless it is already listed; reports whether the
/// list grew. Keeps the list duplicate-free.
fn insert_nt(v: &mut Vec<Nonterminal>, a: Nonterminal) -> (grew: bool)
    requires
        distinct_nts(old(v)@),
    ensures
        distinct_nts(final(v)@),
        forall|b: Nonterminal| final(v)@.contains(b) <==> (old(v)@.contains(b) || b == a),
        grew == !old(v)@.contains(a),
        grew ==> final(v)@ == old(v)@.push(a),
        !grew ==> final(v)@ == old(v)@,
{
    if contains_nt(v, a) {
        false
    } else {
        v.push(a);
        proof {
            assert(forall|b: Nonterminal| v@.contains(b) <==> (old(v)@.contains(b) || b == a)) by {
                assert(forall|b: Nonterminal| old(v)@.contains(b) ==> v@.contains(b)) by {
                    assert(forall|k: int| 0 <= k < old(v)@.len() ==> v@[k] == old(v)@[k]);
                }
                assert(v@.contains(a)) by {
                    assert(v@[v@.len() - 1] == a);
                }
            }
        }
        true
    }
}

/// Inserts a production unless the same rule is already listed.
/// Keeps the list duplicate-free, so it behaves as a set of rules.
fn insert_prod(v: &mut Vec<Production>, p: Production) -> (grew: bool)
    requires
        distinct_prods(old(v)@),
    ensures
        distinct_prods(final(v)@),
        forall|m: ProductionModel| prods_contain(final(v)@, m) <==> (prods_contain(old(v)@, m)
            || m == p@),
        grew == !prods_contain(old(v)@, p@),
        grew ==> final(v)@ == old(v)@.push(p),
        !grew ==> final(v)@ == old(v)@,
{
    let mut i: usize = 0;
    while i < v.len()
        invariant
            i <= v.len(),
            v@ == old(v)@,
            distinct_prods(v@),
            forall|k: int| 0 <= k < i ==> v@[k]@ != p@,
        decreases v.len() - i,
    {
        if prod_eq(&v[i], &p) {
            proof {
                assert(prods_contain(v@, p@));
            }
            return false;
        }
        i = i + 1;
    }
    v.push(p);
    proof {
        assert(forall|k: int| 0 <= k < old(v)@.len() ==> v@[k] == old(v)@[k]);
        assert(v@[v@.len() - 1] == p);
        assert(forall|m: ProductionModel| prods_contain(old(v)@, m) ==> prods_contain(v@, m));
        assert(prods_contain(v@, p@));
        assert(forall|m: ProductionModel| prods_contain(v@, m) ==> (prods_contain(old(v)@, m)
            || m == p@));
    }
    true
}

/// The fixed pool of single-character nonterminal names a pass may draw a
/// fresh symbol from: uppercase Latin, Greek and Cyrillic letters.
pub open spec fn alpha_spec() -> Seq<char> {
    "ABCDEFGHIJKLMNOPQRSTUVWXYZΓΔΘΛΞΣΦΨΩБДЁЖЗИЙПЦЧШЩЫЭЮЯ"@
}

fn alpha_str() -> (r: &'static str)
    ensures
        r@ == alpha_spec(),
{
    "ABCDEFGHIJKLMNOPQRSTUVWXYZΓΔΘΛΞΣΦΨΩБДЁЖЗИЙПЦЧШЩЫЭЮЯ"
}

/// The last character of `alpha` that does not already name a variable,
/// if any; the pool is scanned from its end.
pub open spec fn last_free_in(alpha: Seq<char>, vars: Seq<Nonterminal>) -> Option<char>
    decreases alpha.len(),
{
    if alpha.len() == 0 {
        None
    } else if !vars.contains(Nonterminal { symbol: alpha.last() }) {
        Some(alpha.last())
    } else {
        last_free_in(alpha.drop_last(), vars)
    }
}

/// The set of nonterminals held by a list.
pub open spec fn nts_set(vs: Seq<Nonterminal>) -> Set<Nonterminal> {
    Set::new(|a: Nonterminal| vs.contains(a))
}

/// Whether every symbol of a right-hand side is a nonterminal already
/// known nullable. An empty right-hand side qualifies trivially.
pub open spec fn all_nullable(right: Seq<Symbol>, ns: Set<Nonterminal>) -> bool {
    forall|k: int| 0 <= k < right.len() ==> #[trigger] right[k] is N && ns.contains(
        Nonterminal { symbol: right[k].spec_symbol() },
    )
}

/// One step of the nullable closure: `a` has a production whose right-hand
/// side consists entirely of known-nullable nonterminals (or is empty).
pub open spec fn nullable_step(ps: Seq<Production>, ns: Set<Nonterminal>, a: Nonterminal) -> bool {
    exists|i: int| 0 <= i < ps.len() && (#[trigger] ps[i]@).left == a && all_nullable(
        ps[i]@.right,
        ns,
    )
}

/// The nullable closure after `n` rounds, starting from the empty set.
pub open spec fn nullable_iter(ps: Seq<Production>, n: nat) -> Set<Nonterminal>
    decreases n,
{
    if n == 0 {
        Set::empty()
    } else {
        Set::new(|a: Nonterminal| nullable_step(ps, nullable_iter(ps, (n - 1) as nat), a))
    }
}

/// A nonterminal of the least fixed point of the nullable closure: it can
/// derive the empty string.
pub open spec fn spec_nullable(ps: Seq<Production>, a: Nonterminal) -> bool {
    exists|n: nat| nullable_iter(ps, n).contains(a)
}

proof fn lemma_nullable_step_mono(ps: Seq<Production>, s1: Set<Nonterminal>, s2: Set<Nonterminal>)
    requires
        s1.subset_of(s2),
    ensures
        forall|a: Nonterminal| nullable_step(ps, s1, a) ==> nullable_step(ps, s2, a),
{
    assert forall|a: Nonterminal| nullable_step(ps, s1, a) implies nullable_step(ps, s2, a) by {
        let i = choose|i: int|
            0 <= i < ps.len() && (#[trigger] ps[i]@).left == a && all_nullable(ps[i]@.right, s1);
        assert(all_nullable(ps[i]@.right, s2));
    }
}

proof fn lemma_nullable_iter_mono(ps: Seq<Production>, n: nat)
    ensures
        nullable_iter(ps, n).subset_of(nullable_iter(ps, n + 1)),
    decreases n,
{
    if n > 0 {
        lemma_nullable_iter_mono(ps, (n - 1) as nat);
        lemma_nullable_step_mono(ps, nullable_iter(ps, (n - 1) as nat), nullable_iter(ps, n));
    }
}

proof fn lemma_nullable_iter_closed(ps: Seq<Production>, s: Set<Nonterminal>, n: nat)
    requires
        forall|a: Nonterminal| nullable_step(ps, s, a) ==> s.contains(a),
    ensures
        nullable_iter(ps, n).subset_of(s),
    decreases n,
{
    if n > 0 {
        lemma_nullable_iter_closed(ps, s, (n - 1) as nat);
        lemma_nullable_step_mono(ps, nullable_iter(ps, (n - 1) as nat), s);
    }
}

/// A duplicate-free list whose elements all come from `universe` is no
/// longer than `universe`; it bounds the fixed-point iterations.
proof fn lemma_distinct_in_universe(xs: Seq<Nonterminal>, universe: Seq<Nonterminal>)
    requires
        distinct_nts(xs),
        forall|t: int| 0 <= t < xs.len() ==> universe.contains(#[trigger] xs[t]),
    ensures
        xs.len() <= universe.len(),
{
    broadcast use vstd::seq_lib::seq_to_set_is_finite;

    assert(xs.no_duplicates());
    xs.unique_seq_to_set();
    assert(xs.to_set().subset_of(universe.to_set()));
    vstd::set_lib::lemma_len_subset(xs.to_set(), universe.to_set());
    universe.lemma_cardinality_of_set();
}

/// Every nonterminal of a right-hand side is already known generating;
/// terminals impose no constraint.
pub open spec fn all_gen(right: Seq<Symbol>, s: Set<Nonterminal>) -> bool {
    forall|k: int|
        0 <= k < right.len() ==> ((#[trigger] right[k]) is N ==> s.contains(
            Nonterminal { symbol: right[k].spec_symbol() },
        ))
}

/// One step of the generating closure: `a` has a production whose
/// right-hand side is empty or has only known-generating nonterminals.
pub open spec fn gen_step(ps: Seq<Production>, s: Set<Nonterminal>, a: Nonterminal) -> bool {
    exists|i: int|
        0 <= i < ps.len() && (#[trigger] ps[i]@).left == a && all_gen(ps[i]@.right, s)
}

/// The generating closure after `n` rounds.
pub open spec fn gen_iter(ps: Seq<Production>, n: nat) -> Set<Nonterminal>
    decreases n,
{
    if n == 0 {
        Set::empty()
    } else {
        Set::new(|a: Nonterminal| gen_step(ps, gen_iter(ps, (n - 1) as nat), a))
    }
}

/// A generating nonterminal: it can derive some string of terminals.
pub open spec fn spec_generating(ps: Seq<Production>, a: Nonterminal) -> bool {
    exists|n: nat| gen_iter(ps, n).contains(a)
}

/// The set of all generating nonterminals of a production list.
pub open spec fn generating_set(ps: Seq<Production>) -> Set<Nonterminal> {
    Set::new(|a: Nonterminal| spec_generating(ps, a))
}

proof fn lemma_gen_step_mono(ps: Seq<Production>, s1: Set<Nonterminal>, s2: Set<Nonterminal>)
    requires
        s1.subset_of(s2),
    ensures
        forall|a: Nonterminal| gen_step(ps, s1, a) ==> gen_step(ps, s2, a),
{
    assert forall|a: Nonterminal| gen_step(ps, s1, a) implies gen_step(ps, s2, a) by {
        let i = choose|i: int|
            0 <= i < ps.len() && (#[trigger] ps[i]@).left == a && all_gen(ps[i]@.right, s1);
        assert(all_gen(ps[i]@.right, s2));
    }
}

proof fn lemma_gen_iter_mono(ps: Seq<Production>, n: nat)
    ensures
        gen_iter(ps, n).subset_of(gen_iter(ps, n + 1)),
    decreases n,
{
    if n > 0 {
        lemma_gen_iter_mono(ps, (n - 1) as nat);
        lemma_gen_step_mono(ps, gen_iter(ps, (n - 1) as nat), gen_iter(ps, n));
    }
}

proof fn lemma_gen_iter_closed(ps: Seq<Production>, s: Set<Nonterminal>, n: nat)
    requires
        forall|a: Nonterminal| gen_step(ps, s, a) ==> s.contains(a),
    ensures
        gen_iter(ps, n).subset_of(s),
    decreases n,
{
    if n > 0 {
        lemma_gen_iter_closed(ps, s, (n - 1) as nat);
        lemma_gen_step_mono(ps, gen_iter(ps, (n - 1) as nat), s);
    }
}

proof fn lemma_gen_iter_mono_le(ps: Seq<Production>, n1: nat, n2: nat)
    requires
        n1 <= n2,
    ensures
        gen_iter(ps, n1).subset_of(gen_iter(ps, n2)),
    decreases n2,
{
    if n1 < n2 {
        lemma_gen_iter_mono_le(ps, n1, (n2 - 1) as nat);
        lemma_gen_iter_mono(ps, (n2 - 1) as nat);
    }
}

proof fn lemma_all_gen_bound(ps: Seq<Production>, right: Seq<Symbol>)
    requires
        all_gen(right, generating_set(ps)),
    ensures
        exists|n: nat| all_gen(right, #[trigger] gen_iter(ps, n)),
    decreases right.len(),
{
    if right.len() == 0 {
        assert(all_gen(right, gen_iter(ps, 0)));
    } else {
        assert(all_gen(right.drop_last(), generating_set(ps))) by {
            assert(forall|k: int| 0 <= k < right.len() - 1 ==> #[trigger] right.drop_last()[k]
                == right[k]);
        }
        lemma_all_gen_bound(ps, right.drop_last());
        let n1 = choose|n1: nat| all_gen(right.drop_last(), #[trigger] gen_iter(ps, n1));
        let last = right[right.len() - 1];
        if last is N {
            assert(generating_set(ps).contains(Nonterminal { symbol: last.spec_symbol() }));
            let n2 = choose|n2: nat|
                gen_iter(ps, n2).contains(Nonterminal { symbol: last.spec_symbol() });
            let n = if n1 >= n2 {
                n1
            } else {
                n2
            };
            lemma_gen_iter_mono_le(ps, n1, n);
            lemma_gen_iter_mono_le(ps, n2, n);
            assert forall|k: int| 0 <= k < right.len() implies ((#[trigger] right[k]) is N
                ==> gen_iter(ps, n).contains(
                Nonterminal { symbol: right[k].spec_symbol() },
            )) by {
                if right[k] is N {
                    if k < right.len() - 1 {
                        assert(right.drop_last()[k] == right[k]);
                        assert(gen_iter(ps, n1).contains(
                            Nonterminal { symbol: right[k].spec_symbol() },
                        ));
                    } else {
                        assert(gen_iter(ps, n2).contains(
                            Nonterminal { symbol: right[k].spec_symbol() },
                        ));
                    }
                }
            }
            assert(all_gen(right, gen_iter(ps, n)));
        } else {
            assert forall|k: int| 0 <= k < right.len() implies ((#[trigger] right[k]) is N
                ==> gen_iter(ps, n1).contains(
                Nonterminal { symbol: right[k].spec_symbol() },
            )) by {
                if right[k] is N {
                    assert(k < right.len() - 1);
                    assert(right.drop_last()[k] == right[k]);
                }
            }
            assert(all_gen(right, gen_iter(ps, n1)));
        }
    }
}

proof fn lemma_gen_transfer(ps: Seq<Production>, qs: Seq<Production>, n: nat)
    requires
        forall|m: ProductionModel|
            #[trigger] prods_contain(qs, m) <==> (prods_contain(ps, m) && generating_set(
                ps,
            ).contains(m.left) && all_gen(m.right, generating_set(ps))),
    ensures
        forall|a: Nonterminal| gen_iter(ps, n).contains(a) ==> spec_generating(qs, a),
    decreases n,
{
    if n > 0 {
        lemma_gen_transfer(ps, qs, (n - 1) as nat);
        assert forall|a: Nonterminal| gen_iter(ps, n).contains(a) implies spec_generating(
            qs,
            a,
        ) by {
            let i = choose|i: int|
                0 <= i < ps.len() && (#[trigger] ps[i]@).left == a && all_gen(
                    ps[i]@.right,
                    gen_iter(ps, (n - 1) as nat),
                );
            assert(prods_contain(ps, ps[i]@));
            assert(generating_set(ps).contains(a));
            assert(all_gen(ps[i]@.right, generating_set(ps))) by {
                assert forall|k: int| 0 <= k < ps[i]@.right.len() implies ((
                #[trigger] ps[i]@.right[k]) is N ==> generating_set(ps).contains(
                    Nonterminal { symbol: ps[i]@.right[k].spec_symbol() },
                )) by {
                    if ps[i]@.right[k] is N {
                        assert(gen_iter(ps, (n - 1) as nat).contains(
                            Nonterminal { symbol: ps[i]@.right[k].spec_symbol() },
                        ));
                    }
                }
            }
            assert(prods_contain(qs, ps[i]@));
            // The same right-hand side is all generating in the filtered
            // list too, with one common round bounding its nonterminals.
            assert(all_gen(ps[i]@.right, generating_set(qs))) by {
                assert forall|k: int| 0 <= k < ps[i]@.right.len() implies ((
                #[trigger] ps[i]@.right[k]) is N ==> generating_set(qs).contains(
                    Nonterminal { symbol: ps[i]@.right[k].spec_symbol() },
                )) by {
                    if ps[i]@.right[k] is N {
                        assert(gen_iter(ps, (n - 1) as nat).contains(
                            Nonterminal { symbol: ps[i]@.right[k].spec_symbol() },
                        ));
                        assert(spec_generating(
                            qs,
                            Nonterminal { symbol: ps[i]@.right[k].spec_symbol() },
                        ));
                    }
                }
            }
            lemma_all_gen_bound(qs, ps[i]@.right);
            let m1 = choose|m1: nat| all_gen(ps[i]@.right, #[trigger] gen_iter(qs, m1));
            let k = choose|k: int| 0 <= k < qs.len() && #[trigger] qs[k]@ == ps[i]@;
            assert((#[trigger] qs[k]@).left == a);
            assert(gen_step(qs, gen_iter(qs, m1), a));
            assert(gen_iter(qs, m1 + 1).contains(a));
        }
    }
}

/// Useless removal is idempotent. A production list `qs` that came out of
/// the generating filter over `ps` satisfies the same filter with respect
/// to its own generating set: every surviving rule's left symbol and
/// right-hand nonterminals are generating in the filtered grammar itself,
/// so filtering again keeps every rule.
pub proof fn lemma_useless_idempotent(ps: Seq<Production>, qs: Seq<Production>)
    requires
        forall|m: ProductionModel|
            #[trigger] prods_contain(qs, m) <==> (prods_contain(ps, m) && generating_set(
                ps,
            ).contains(m.left) && all_gen(m.right, generating_set(ps))),
    ensures
        forall|m: ProductionModel| #[trigger] prods_contain(qs, m) ==> (generating_set(
            qs,
        ).contains(m.left) && all_gen(m.right, generating_set(qs))),
{
    assert forall|m: ProductionModel| #[trigger] prods_contain(qs, m) implies (generating_set(
        qs,
    ).contains(m.left) && all_gen(m.right, generating_set(qs))) by {
        assert(generating_set(ps).contains(m.left));
        let n = choose|n: nat| gen_iter(ps, n).contains(m.left);
        lemma_gen_transfer(ps, qs, n);
        assert(generating_set(qs).contains(m.left));
        assert forall|k: int| 0 <= k < m.right.len() implies ((#[trigger] m.right[k]) is N
            ==> generating_set(qs).contains(
            Nonterminal { symbol: m.right[k].spec_symbol() },
        )) by {
            if m.right[k] is N {
                assert(generating_set(ps).contains(
                    Nonterminal { symbol: m.right[k].spec_symbol() },
                ));
                let nk = choose|nk: nat|
                    gen_iter(ps, nk).contains(Nonterminal { symbol: m.right[k].spec_symbol() });
                lemma_gen_transfer(ps, qs, nk);
            }
        }
    }
}

/// One step of the reachable closure from the start symbol: the start
/// itself, or a nonterminal in the right-hand side of a production whose
/// left symbol is already known reachable.
pub open spec fn reach_step(
    ps: Seq<Production>,
    start: Nonterminal,
    s: Set<Nonterminal>,
    a: Nonterminal,
) -> bool {
    a == start || exists|i: int|
        0 <= i < ps.len() && s.contains((#[trigger] ps[i]@).left) && rhs_has_nt(ps[i]@, a)
}

/// The reachable closure after `n` rounds.
pub open spec fn reach_iter(ps: Seq<Production>, start: Nonterminal, n: nat) -> Set<Nonterminal>
    decreases n,
{
    if n == 0 {
        Set::empty()
    } else {
        Set::new(|a: Nonterminal| reach_step(ps, start, reach_iter(ps, start, (n - 1) as nat), a))
    }
}

/// A reachable nonterminal: the start symbol reaches it through some
/// chain of productions.
pub open spec fn spec_reachable(ps: Seq<Production>, start: Nonterminal, a: Nonterminal) -> bool {
    exists|n: nat| reach_iter(ps, start, n).contains(a)
}

proof fn lemma_reach_step_mono(
    ps: Seq<Production>,
    start: Nonterminal,
    s1: Set<Nonterminal>,
    s2: Set<Nonterminal>,
)
    requires
        s1.subset_of(s2),
    ensures
        forall|a: Nonterminal| reach_step(ps, start, s1, a) ==> reach_step(ps, start, s2, a),
{
    assert forall|a: Nonterminal| reach_step(ps, start, s1, a) implies reach_step(
        ps,
        start,
        s2,
        a,
    ) by {
        if a != start {
            let i = choose|i: int|
                0 <= i < ps.len() && s1.contains((#[trigger] ps[i]@).left) && rhs_has_nt(
                    ps[i]@,
                    a,
                );
            assert(s2.contains(ps[i]@.left));
        }
    }
}

proof fn lemma_reach_iter_mono(ps: Seq<Production>, start: Nonterminal, n: nat)
    ensures
        reach_iter(ps, start, n).subset_of(reach_iter(ps, start, n + 1)),
    decreases n,
{
    if n > 0 {
        lemma_reach_iter_mono(ps, start, (n - 1) as nat);
        lemma_reach_step_mono(
            ps,
            start,
            reach_iter(ps, start, (n - 1) as nat),
            reach_iter(ps, start, n),
        );
    }
}

proof fn lemma_reach_iter_closed(
    ps: Seq<Production>,
    start: Nonterminal,
    s: Set<Nonterminal>,
    n: nat,
)
    requires
        forall|a: Nonterminal| reach_step(ps, start, s, a) ==> s.contains(a),
    ensures
        reach_iter(ps, start, n).subset_of(s),
    decreases n,
{
    if n > 0 {
        lemma_reach_iter_closed(ps, start, s, (n - 1) as nat);
        lemma_reach_step_mono(ps, start, reach_iter(ps, start, (n - 1) as nat), s);
    }
}

proof fn lemma_reach_transfer(
    ps: Seq<Production>,
    qs: Seq<Production>,
    start: Nonterminal,
    n: nat,
)
    requires
        forall|m: ProductionModel|
            #[trigger] prods_contain(qs, m) <==> (prods_contain(ps, m) && spec_reachable(
                ps,
                start,
                m.left,
            )),
    ensures
        forall|a: Nonterminal| reach_iter(ps, start, n).contains(a) ==> spec_reachable(
            qs,
            start,
            a,
        ),
    decreases n,
{
    if n > 0 {
        lemma_reach_transfer(ps, qs, start, (n - 1) as nat);
        assert forall|a: Nonterminal| reach_iter(ps, start, n).contains(a) implies spec_reachable(
            qs,
            start,
            a,
        ) by {
            if a == start {
                assert(reach_step(qs, start, reach_iter(qs, start, 0), a));
                assert(reach_iter(qs, start, 1).contains(a));
            } else {
                let i = choose|i: int|
                    0 <= i < ps.len() && reach_iter(ps, start, (n - 1) as nat).contains(
                        (#[trigger] ps[i]@).left,
                    ) && rhs_has_nt(ps[i]@, a);
                assert(prods_contain(ps, ps[i]@));
                assert(spec_reachable(ps, start, ps[i]@.left));
                assert(prods_contain(qs, ps[i]@));
                assert(spec_reachable(qs, start, ps[i]@.left));
                let m1 = choose|m1: nat| reach_iter(qs, start, m1).contains(ps[i]@.left);
                let k = choose|k: int| 0 <= k < qs.len() && #[trigger] qs[k]@ == ps[i]@;
                assert(reach_iter(qs, start, m1).contains((#[trigger] qs[k]@).left));
                assert(rhs_has_nt(qs[k]@, a));
                assert(reach_step(qs, start, reach_iter(qs, start, m1), a));
                assert(reach_iter(qs, start, m1 + 1).contains(a));
            }
        }
    }
}

/// Unreachable removal is idempotent. A production list `qs` that came
/// out of the reachability filter over `ps` satisfies the same filter
/// with respect to its own reachable set: every surviving rule's left
/// symbol is reachable in the filtered grammar itself, so filtering again
/// keeps every rule.
pub proof fn lemma_unreachable_idempotent(
    ps: Seq<Production>,
    qs: Seq<Production>,
    start: Nonterminal,
)
    requires
        forall|m: ProductionModel|
            #[trigger] prods_contain(qs, m) <==> (prods_contain(ps, m) && spec_reachable(
                ps,
                start,
                m.left,
            )),
    ensures
        forall|m: ProductionModel| #[trigger] prods_contain(qs, m) ==> spec_reachable(
            qs,
            start,
            m.left,
        ),
{
    assert forall|m: ProductionModel| #[trigger] prods_contain(qs, m) implies spec_reachable(
        qs,
        start,
        m.left,
    ) by {
        assert(spec_reachable(ps, start, m.left));
        let n = choose|n: nat| reach_iter(ps, start, n).contains(m.left);
        lemma_reach_transfer(ps, qs, start, n);
    }
}

proof fn lemma_gen_reach_transfer(
    ps: Seq<Production>,
    qs: Seq<Production>,
    start: Nonterminal,
    n: nat,
)
    requires
        forall|m: ProductionModel|
            #[trigger] prods_contain(qs, m) <==> (prods_contain(ps, m) && spec_reachable(
                ps,
                start,
                m.left,
            )),
    ensures
        forall|a: Nonterminal|
            gen_iter(ps, n).contains(a) && spec_reachable(ps, start, a) ==> spec_generating(
                qs,
                a,
            ),
    decreases n,
{
    if n > 0 {
        lemma_gen_reach_transfer(ps, qs, start, (n - 1) as nat);
        assert forall|a: Nonterminal|
            gen_iter(ps, n).contains(a) && spec_reachable(ps, start, a) implies spec_generating(
            qs,
            a,
        ) by {
            let i = choose|i: int|
                0 <= i < ps.len() && (#[trigger] ps[i]@).left == a && all_gen(
                    ps[i]@.right,
                    gen_iter(ps, (n - 1) as nat),
                );
            assert(prods_contain(ps, ps[i]@));
            assert(prods_contain(qs, ps[i]@));
            let nr = choose|nr: nat| reach_iter(ps, start, nr).contains(a);
            assert(all_gen(ps[i]@.right, generating_set(qs))) by {
                assert forall|k: int| 0 <= k < ps[i]@.right.len() implies ((
                #[trigger] ps[i]@.right[k]) is N ==> generating_set(qs).contains(
                    Nonterminal { symbol: ps[i]@.right[k].spec_symbol() },
                )) by {
                    if ps[i]@.right[k] is N {
                        let b = Nonterminal { symbol: ps[i]@.right[k].spec_symbol() };
                        assert(gen_iter(ps, (n - 1) as nat).contains(b));
                        assert(ps[i]@.right[k] == Symbol::N(b));
                        assert(rhs_has_nt(ps[i]@, b));
                        assert(reach_iter(ps, start, nr).contains((#[trigger] ps[i]@).left));
                        assert(reach_step(ps, start, reach_iter(ps, start, nr), b));
                        assert(reach_iter(ps, start, nr + 1).contains(b));
                        assert(spec_reachable(ps, start, b));
                    }
                }
            }
            lemma_all_gen_bound(qs, ps[i]@.right);
            let m1 = choose|m1: nat| all_gen(ps[i]@.right, #[trigger] gen_iter(qs, m1));
            let k = choose|k: int| 0 <= k < qs.len() && #[trigger] qs[k]@ == ps[i]@;
            assert((#[trigger] qs[k]@).left == a);
            assert(gen_step(qs, gen_iter(qs, m1), a));
            assert(gen_iter(qs, m1 + 1).contains(a));
        }
    }
}

/// Useless removal stays a no-op after unreachable removal: when `qs`
/// came out of the generating filter over `ps` and `rs` out of the
/// reachability filter over `qs`, every rule of `rs` still has a
/// generating left symbol and generating right-hand nonterminals with
/// respect to `rs` itself, so a second useless pass keeps every rule.
pub proof fn lemma_useless_stable_after_unreachable(
    ps: Seq<Production>,
    qs: Seq<Production>,
    rs: Seq<Production>,
    start: Nonterminal,
)
    requires
        forall|m: ProductionModel|
            #[trigger] prods_contain(qs, m) <==> (prods_contain(ps, m) && generating_set(
                ps,
            ).contains(m.left) && all_gen(m.right, generating_set(ps))),
        forall|m: ProductionModel|
            #[trigger] prods_contain(rs, m) <==> (prods_contain(qs, m) && spec_reachable(
                qs,
                start,
                m.left,
            )),
    ensures
        forall|m: ProductionModel| #[trigger] prods_contain(rs, m) ==> (generating_set(
            rs,
        ).contains(m.left) && all_gen(m.right, generating_set(rs))),
{
    lemma_useless_idempotent(ps, qs);
    assert forall|m: ProductionModel| #[trigger] prods_contain(rs, m) implies (generating_set(
        rs,
    ).contains(m.left) && all_gen(m.right, generating_set(rs))) by {
        assert(prods_contain(qs, m));
        assert(generating_set(qs).contains(m.left));
        assert(spec_reachable(qs, start, m.left));
        let n = choose|n: nat| gen_iter(qs, n).contains(m.left);
        lemma_gen_reach_transfer(qs, rs, start, n);
        assert(generating_set(rs).contains(m.left));
        assert forall|k: int| 0 <= k < m.right.len() implies ((#[trigger] m.right[k]) is N
            ==> generating_set(rs).contains(
            Nonterminal { symbol: m.right[k].spec_symbol() },
        )) by {
            if m.right[k] is N {
                let b = Nonterminal { symbol: m.right[k].spec_symbol() };
                assert(all_gen(m.right, generating_set(qs)));
                assert(generating_set(qs).contains(b));
                let nr = choose|nr: nat| reach_iter(qs, start, nr).contains(m.left);
                let iw = choose|iw: int| 0 <= iw < qs.len() && #[trigger] qs[iw]@ == m;
                assert(reach_iter(qs, start, nr).contains((#[trigger] qs[iw]@).left));
                assert(m.right[k] == Symbol::N(b));
                assert(rhs_has_nt(qs[iw]@, b));
                assert(reach_step(qs, start, reach_iter(qs, start, nr), b));
                assert(reach_iter(qs, start, nr + 1).contains(b));
                assert(spec_reachable(qs, start, b));
                let nb = choose|nb: nat| gen_iter(qs, nb).contains(b);
                lemma_gen_reach_transfer(qs, rs, start, nb);
            }
        }
        assert(all_gen(m.right, generating_set(rs)));
    }
}

/// Pipeline idempotence. `qs` is the useless pass's output over `ps` and
/// `rs` the unreachable pass's output over `qs`, as the passes' contracts
/// characterize them; when `rs` holds no epsilon and no unit production
/// (epsilon freedom is the one restriction: a grammar that derives the
/// empty string keeps an epsilon on a fresh start symbol, and running the
/// pipeline again would synthesize yet another start), each of the four
/// passes maps `rs` to exactly `rs`: the conclusions state that every
/// pass's output characterization collapses to membership in `rs`
/// itself, so a second run of the pipeline returns the same production
/// set.
pub proof fn lemma_simplify_idempotent(
    ps: Seq<Production>,
    qs: Seq<Production>,
    rs: Seq<Production>,
    start: Nonterminal,
)
    requires
        forall|m: ProductionModel|
            #[trigger] prods_contain(qs, m) <==> (prods_contain(ps, m) && generating_set(
                ps,
            ).contains(m.left) && all_gen(m.right, generating_set(ps))),
        forall|m: ProductionModel|
            #[trigger] prods_contain(rs, m) <==> (prods_contain(qs, m) && spec_reachable(
                qs,
                start,
                m.left,
            )),
        forall|m: ProductionModel| #[trigger] prods_contain(rs, m) ==> !is_eps(m),
        forall|m: ProductionModel| #[trigger] prods_contain(rs, m) ==> !is_unit(m),
    ensures
        forall|a: Nonterminal| !has_eps_on(rs, a),
        forall|m: ProductionModel|
            (eps_base(rs, m) || (is_nullable_variant_of(m, rs) && !is_eps(m) && !is_self_unit(
                m,
            ))) <==> #[trigger] prods_contain(rs, m),
        forall|m: ProductionModel|
            ((prods_contain(rs, m) && !is_unit(m)) || is_unit_import(m, rs)) <==> #[trigger]
            prods_contain(rs, m),
        forall|m: ProductionModel|
            (prods_contain(rs, m) && generating_set(rs).contains(m.left) && all_gen(
                m.right,
                generating_set(rs),
            )) <==> #[trigger] prods_contain(rs, m),
        forall|m: ProductionModel|
            (prods_contain(rs, m) && spec_reachable(rs, start, m.left)) <==> #[trigger]
            prods_contain(rs, m),
{
    lemma_epsilon_free_noop(rs);
    lemma_unit_free_noop(rs);
    lemma_useless_stable_after_unreachable(ps, qs, rs, start);
    lemma_unreachable_idempotent(qs, rs, start);
}

/// Every nonterminal occurring in a right-hand side also stands on the
/// left of some production: the list feeds an expansion index completely.
pub open spec fn rhs_closed(ps: Seq<Production>) -> bool {
    forall|m: ProductionModel, a: Nonterminal|
        #![trigger prods_contain(ps, m), rhs_has_nt(m, a)]
        prods_contain(ps, m) && rhs_has_nt(m, a) ==> exists|k: int|
            0 <= k < ps.len() && (#[trigger] ps[k]@).left == a
}

/// An epsilon production on `a` stands in the list.
pub open spec fn has_eps_on(ps: Seq<Production>, a: Nonterminal) -> bool {
    exists|i: int| 0 <= i < ps.len() && (#[trigger] ps[i]@).left == a && is_eps(ps[i]@)
}

/// The nonterminal occurs in some right-hand side of the list.
pub open spec fn nt_in_some_rhs(ps: Seq<Production>, a: Nonterminal) -> bool {
    exists|i: int| 0 <= i < ps.len() && rhs_has_nt(#[trigger] ps[i]@, a)
}

/// A unit production whose sole right-hand symbol is its own left symbol.
pub open spec fn is_self_unit(m: ProductionModel) -> bool {
    m.right.len() == 1 && m.right[0] == Symbol::N(m.left)
}

/// A variant of some production of the list, obtained by deleting one
/// occurrence of a nullable nonterminal from its right-hand side.
pub open spec fn is_nullable_variant_of(m: ProductionModel, ps: Seq<Production>) -> bool {
    exists|i: int, k: int|
        0 <= i < ps.len() && 0 <= k < ps[i]@.right.len() && (#[trigger] ps[i]@.right[k]) is N
            && spec_nullable(ps, Nonterminal { symbol: ps[i]@.right[k].spec_symbol() }) && m
            == (ProductionModel { left: ps[i]@.left, right: ps[i]@.right.remove(k) })
}

/// A production of the list, kept because it is not an epsilon production.
pub open spec fn eps_base(ps: Seq<Production>, m: ProductionModel) -> bool {
    prods_contain(ps, m) && !is_eps(m)
}

/// A deletion variant over the nonterminals listed in `ns`: some production
/// of `ps` with one right-hand occurrence of a listed nonterminal deleted.
pub open spec fn variant_with(ps: Seq<Production>, ns: Seq<Nonterminal>, m: ProductionModel) -> bool {
    exists|i: int, k: int|
        0 <= i < ps.len() && 0 <= k < ps[i]@.right.len() && (#[trigger] ps[i]@.right[k]) is N
            && ns.contains(Nonterminal { symbol: ps[i]@.right[k].spec_symbol() }) && m
            == (ProductionModel { left: ps[i]@.left, right: ps[i]@.right.remove(k) })
}

/// A deletion variant for occurrences of `b` up to rule `j`, position `kk`
/// inside rule `j` (in the order the building loops walk them).
pub open spec fn variant_of_nt_upto(
    ps: Seq<Production>,
    b: Nonterminal,
    j: int,
    kk: int,
    m: ProductionModel,
) -> bool {
    exists|i: int, k: int|
        0 <= i < ps.len() && 0 <= k < ps[i]@.right.len() && (i < j || (i == j && k < kk)) && (
        #[trigger] ps[i]@.right[k]) == Symbol::N(b) && m == (ProductionModel {
            left: ps[i]@.left,
            right: ps[i]@.right.remove(k),
        })
}

proof fn lemma_upto_zero(ps: Seq<Production>, b: Nonterminal)
    ensures
        forall|m: ProductionModel| !variant_of_nt_upto(ps, b, 0, 0, m),
{
    assert forall|m: ProductionModel| !variant_of_nt_upto(ps, b, 0, 0, m) by {
        if variant_of_nt_upto(ps, b, 0, 0, m) {
            let (i1, k1): (int, int) = choose|i: int, k: int|
                0 <= i < ps.len() && 0 <= k < ps[i]@.right.len() && (i < 0 || (i == 0 && k < 0))
                    && (#[trigger] ps[i]@.right[k]) == Symbol::N(b) && m == (ProductionModel {
                    left: ps[i]@.left,
                    right: ps[i]@.right.remove(k),
                });
            assert(false);
        }
    }
}

proof fn lemma_upto_step(ps: Seq<Production>, b: Nonterminal, j: int, kk: int)
    requires
        0 <= j < ps.len(),
        0 <= kk < ps[j]@.right.len(),
    ensures
        ps[j]@.right[kk] == Symbol::N(b) ==> forall|m: ProductionModel|
            variant_of_nt_upto(ps, b, j, kk + 1, m) <==> (variant_of_nt_upto(ps, b, j, kk, m)
                || m == (ProductionModel { left: ps[j]@.left, right: ps[j]@.right.remove(kk) })),
        ps[j]@.right[kk] != Symbol::N(b) ==> forall|m: ProductionModel|
            variant_of_nt_upto(ps, b, j, kk + 1, m) <==> variant_of_nt_upto(ps, b, j, kk, m),
{
    assert forall|m: ProductionModel| variant_of_nt_upto(ps, b, j, kk + 1, m) implies (
    variant_of_nt_upto(ps, b, j, kk, m) || (ps[j]@.right[kk] == Symbol::N(b) && m
        == (ProductionModel { left: ps[j]@.left, right: ps[j]@.right.remove(kk) }))) by {
        let (i1, k1): (int, int) = choose|i: int, k: int|
            0 <= i < ps.len() && 0 <= k < ps[i]@.right.len() && (i < j || (i == j && k < kk + 1))
                && (#[trigger] ps[i]@.right[k]) == Symbol::N(b) && m == (ProductionModel {
                left: ps[i]@.left,
                right: ps[i]@.right.remove(k),
            });
        if i1 < j || (i1 == j && k1 < kk) {
            assert(variant_of_nt_upto(ps, b, j, kk, m));
        }
    }
    assert forall|m: ProductionModel| variant_of_nt_upto(ps, b, j, kk, m) implies
        variant_of_nt_upto(ps, b, j, kk + 1, m) by {
        let (i1, k1): (int, int) = choose|i: int, k: int|
            0 <= i < ps.len() && 0 <= k < ps[i]@.right.len() && (i < j || (i == j && k < kk)) && (
            #[trigger] ps[i]@.right[k]) == Symbol::N(b) && m == (ProductionModel {
                left: ps[i]@.left,
                right: ps[i]@.right.remove(k),
            });
        assert((#[trigger] ps[i1]@.right[k1]) == Symbol::N(b));
    }
    if ps[j]@.right[kk] == Symbol::N(b) {
        assert(variant_of_nt_upto(
            ps,
            b,
            j,
            kk + 1,
            ProductionModel { left: ps[j]@.left, right: ps[j]@.right.remove(kk) },
        ));
    }
}

proof fn lemma_upto_next_rule(ps: Seq<Production>, b: Nonterminal, j: int)
    requires
        0 <= j < ps.len(),
    ensures
        forall|m: ProductionModel|
            variant_of_nt_upto(ps, b, j + 1, 0, m) <==> variant_of_nt_upto(
                ps,
                b,
                j,
                ps[j]@.right.len() as int,
                m,
            ),
{
    let kk = ps[j]@.right.len() as int;
    assert forall|m: ProductionModel| variant_of_nt_upto(ps, b, j + 1, 0, m) implies
        variant_of_nt_upto(ps, b, j, kk, m) by {
        let (i1, k1): (int, int) = choose|i: int, k: int|
            0 <= i < ps.len() && 0 <= k < ps[i]@.right.len() && (i < j + 1 || (i == j + 1 && k
                < 0)) && (#[trigger] ps[i]@.right[k]) == Symbol::N(b) && m == (ProductionModel {
                left: ps[i]@.left,
                right: ps[i]@.right.remove(k),
            });
        assert((#[trigger] ps[i1]@.right[k1]) == Symbol::N(b));
        assert(i1 < j || (i1 == j && k1 < kk));
    }
    assert forall|m: ProductionModel| variant_of_nt_upto(ps, b, j, kk, m) implies
        variant_of_nt_upto(ps, b, j + 1, 0, m) by {
        let (i1, k1): (int, int) = choose|i: int, k: int|
            0 <= i < ps.len() && 0 <= k < ps[i]@.right.len() && (i < j || (i == j && k < kk)) && (
            #[trigger] ps[i]@.right[k]) == Symbol::N(b) && m == (ProductionModel {
                left: ps[i]@.left,
                right: ps[i]@.right.remove(k),
            });
        assert((#[trigger] ps[i1]@.right[k1]) == Symbol::N(b));
    }
}

proof fn lemma_variant_with_extend(ps: Seq<Production>, ns: Seq<Nonterminal>, n: int)
    requires
        0 <= n < ns.len(),
    ensures
        forall|m: ProductionModel|
            variant_with(ps, ns.take(n + 1), m) <==> (variant_with(ps, ns.take(n), m)
                || variant_of_nt_upto(ps, ns[n], ps.len() as int, 0, m)),
{
    let b = ns[n];
    assert(forall|c: Nonterminal|
        ns.take(n + 1).contains(c) <==> (ns.take(n).contains(c) || c == b)) by {
        assert(forall|t: int| 0 <= t < n + 1 ==> ns.take(n + 1)[t] == ns[t]);
        assert(forall|t: int| 0 <= t < n ==> ns.take(n)[t] == ns[t]);
        assert(ns.take(n + 1)[n] == b);
        assert(forall|c: Nonterminal| ns.take(n).contains(c) ==> ns.take(n + 1).contains(c));
    }
    assert forall|m: ProductionModel| variant_with(ps, ns.take(n + 1), m) implies (variant_with(
        ps,
        ns.take(n),
        m,
    ) || variant_of_nt_upto(ps, b, ps.len() as int, 0, m)) by {
        let (i1, k1): (int, int) = choose|i: int, k: int|
            0 <= i < ps.len() && 0 <= k < ps[i]@.right.len() && (#[trigger] ps[i]@.right[k]) is N
                && ns.take(n + 1).contains(
                Nonterminal { symbol: ps[i]@.right[k].spec_symbol() },
            ) && m == (ProductionModel { left: ps[i]@.left, right: ps[i]@.right.remove(k) });
        let c = Nonterminal { symbol: ps[i1]@.right[k1].spec_symbol() };
        if ns.take(n).contains(c) {
            assert(variant_with(ps, ns.take(n), m));
        } else {
            assert(c == b);
            assert((#[trigger] ps[i1]@.right[k1]) == Symbol::N(b));
            assert(variant_of_nt_upto(ps, b, ps.len() as int, 0, m));
        }
    }
    assert forall|m: ProductionModel| variant_with(ps, ns.take(n), m) implies variant_with(
        ps,
        ns.take(n + 1),
        m,
    ) by {
        let (i1, k1): (int, int) = choose|i: int, k: int|
            0 <= i < ps.len() && 0 <= k < ps[i]@.right.len() && (#[trigger] ps[i]@.right[k]) is N
                && ns.take(n).contains(Nonterminal { symbol: ps[i]@.right[k].spec_symbol() }) && m
                == (ProductionModel { left: ps[i]@.left, right: ps[i]@.right.remove(k) });
        assert((#[trigger] ps[i1]@.right[k1]) is N);
    }
    assert forall|m: ProductionModel| variant_of_nt_upto(ps, b, ps.len() as int, 0, m) implies
        variant_with(ps, ns.take(n + 1), m) by {
        let (i1, k1): (int, int) = choose|i: int, k: int|
            0 <= i < ps.len() && 0 <= k < ps[i]@.right.len() && (i < ps.len() || (i == ps.len()
                && k < 0)) && (#[trigger] ps[i]@.right[k]) == Symbol::N(b) && m
                == (ProductionModel { left: ps[i]@.left, right: ps[i]@.right.remove(k) });
        assert(Nonterminal { symbol: ps[i1]@.right[k1].spec_symbol() } == b);
        assert(ns.take(n + 1)[n] == b);
        assert(ns.take(n + 1).contains(b));
        assert((#[trigger] ps[i1]@.right[k1]) is N);
    }
}

/// A deletion variant over the full nullable set is exactly a nullable
/// deletion variant.
proof fn lemma_variant_with_full(ps: Seq<Production>, ns: Seq<Nonterminal>)
    requires
        forall|a: Nonterminal| ns.contains(a) <==> spec_nullable(ps, a),
    ensures
        forall|m: ProductionModel| variant_with(ps, ns, m) <==> is_nullable_variant_of(m, ps),
{
    assert forall|m: ProductionModel| variant_with(ps, ns, m) implies is_nullable_variant_of(
        m,
        ps,
    ) by {
        let (i1, k1): (int, int) = choose|i: int, k: int|
            0 <= i < ps.len() && 0 <= k < ps[i]@.right.len() && (#[trigger] ps[i]@.right[k]) is N
                && ns.contains(Nonterminal { symbol: ps[i]@.right[k].spec_symbol() }) && m
                == (ProductionModel { left: ps[i]@.left, right: ps[i]@.right.remove(k) });
        assert(spec_nullable(ps, Nonterminal { symbol: ps[i1]@.right[k1].spec_symbol() }));
        assert((#[trigger] ps[i1]@.right[k1]) is N);
    }
    assert forall|m: ProductionModel| is_nullable_variant_of(m, ps) implies variant_with(
        ps,
        ns,
        m,
    ) by {
        let (i1, k1): (int, int) = choose|i: int, k: int|
            0 <= i < ps.len() && 0 <= k < ps[i]@.right.len() && (#[trigger] ps[i]@.right[k]) is N
                && spec_nullable(ps, Nonterminal { symbol: ps[i]@.right[k].spec_symbol() }) && m
                == (ProductionModel { left: ps[i]@.left, right: ps[i]@.right.remove(k) });
        assert(ns.contains(Nonterminal { symbol: ps[i1]@.right[k1].spec_symbol() }));
        assert((#[trigger] ps[i1]@.right[k1]) is N);
    }
}

proof fn lemma_eps_free_no_nullable(ps: Seq<Production>, n: nat)
    requires
        forall|m: ProductionModel| #[trigger] prods_contain(ps, m) ==> !is_eps(m),
    ensures
        nullable_iter(ps, n) =~= Set::<Nonterminal>::empty(),
    decreases n,
{
    if n > 0 {
        lemma_eps_free_no_nullable(ps, (n - 1) as nat);
        assert forall|a: Nonterminal| !nullable_iter(ps, n).contains(a) by {
            if nullable_step(ps, nullable_iter(ps, (n - 1) as nat), a) {
                let i = choose|i: int|
                    0 <= i < ps.len() && (#[trigger] ps[i]@).left == a && all_nullable(
                        ps[i]@.right,
                        nullable_iter(ps, (n - 1) as nat),
                    );
                assert(prods_contain(ps, ps[i]@));
                assert(ps[i]@.right.len() > 0);
                assert(ps[i]@.right[0] is N && nullable_iter(ps, (n - 1) as nat).contains(
                    Nonterminal { symbol: ps[i]@.right[0].spec_symbol() },
                ));
                assert(false);
            }
        }
    }
}

/// Epsilon removal is a no-op on an epsilon-free production list: nothing
/// is nullable, so no variant is added, no epsilon production needs
/// dropping, and no fresh start is synthesized. Together with the
/// membership contract of the epsilon pass this says the pass leaves an
/// epsilon-free grammar's rules and start symbol unchanged.
pub proof fn lemma_epsilon_free_noop(ps: Seq<Production>)
    requires
        forall|m: ProductionModel| #[trigger] prods_contain(ps, m) ==> !is_eps(m),
    ensures
        forall|a: Nonterminal| !spec_nullable(ps, a),
        forall|a: Nonterminal| !has_eps_on(ps, a),
        forall|m: ProductionModel|
            (eps_base(ps, m) || (is_nullable_variant_of(m, ps) && !is_eps(m) && !is_self_unit(
                m,
            ))) <==> #[trigger] prods_contain(ps, m),
{
    assert forall|a: Nonterminal| !spec_nullable(ps, a) by {
        if spec_nullable(ps, a) {
            let n = choose|n: nat| nullable_iter(ps, n).contains(a);
            lemma_eps_free_no_nullable(ps, n);
        }
    }
    assert forall|a: Nonterminal| !has_eps_on(ps, a) by {
        if has_eps_on(ps, a) {
            let i = choose|i: int|
                0 <= i < ps.len() && (#[trigger] ps[i]@).left == a && is_eps(ps[i]@);
            assert(prods_contain(ps, ps[i]@));
            assert(false);
        }
    }
    assert forall|m: ProductionModel| !is_nullable_variant_of(m, ps) by {
        if is_nullable_variant_of(m, ps) {
            let (i, k): (int, int) = choose|i: int, k: int|
                0 <= i < ps.len() && 0 <= k < ps[i]@.right.len() && (#[trigger] ps[i]@.right[k])
                    is N && spec_nullable(
                    ps,
                    Nonterminal { symbol: ps[i]@.right[k].spec_symbol() },
                ) && m == (ProductionModel { left: ps[i]@.left, right: ps[i]@.right.remove(k) });
            assert(false);
        }
    }
}

/// An import produced by the unit pass from rule `i` (a unit rule that is
/// no self-loop) and rule `j` (a non-unit rule of the unit rule's target),
/// considering only targets `j` before `jb`.
pub open spec fn unit_import_from(m: ProductionModel, ps: Seq<Production>, i: int, jb: int) -> bool {
    exists|j: int|
        0 <= j < jb && !is_unit(#[trigger] ps[j]@) && is_unit(ps[i]@) && ps[i]@.right[0]
            == Symbol::N(ps[j]@.left) && ps[j]@.left != ps[i]@.left && m == (ProductionModel {
            left: ps[i]@.left,
            right: ps[j]@.right,
        })
}

/// An import produced by the unit pass from any unit rule before `ib`.
pub open spec fn unit_import_upto(m: ProductionModel, ps: Seq<Production>, ib: int) -> bool {
    exists|i: int| 0 <= i < ib && #[trigger] unit_import_from(m, ps, i, ps.len() as int)
}

/// A production the unit pass imports: for some unit rule `X -> B` with
/// `B != X`, a copy `X -> w` of a non-unit production `B -> w`.
pub open spec fn is_unit_import(m: ProductionModel, ps: Seq<Production>) -> bool {
    unit_import_upto(m, ps, ps.len() as int)
}

proof fn lemma_unit_from_zero(ps: Seq<Production>, i: int)
    ensures
        forall|m: ProductionModel| !unit_import_from(m, ps, i, 0),
{
    assert forall|m: ProductionModel| !unit_import_from(m, ps, i, 0) by {
        if unit_import_from(m, ps, i, 0) {
            let j = choose|j: int|
                0 <= j < 0 && !is_unit(#[trigger] ps[j]@) && is_unit(ps[i]@) && ps[i]@.right[0]
                    == Symbol::N(ps[j]@.left) && ps[j]@.left != ps[i]@.left && m
                    == (ProductionModel { left: ps[i]@.left, right: ps[j]@.right });
            assert(false);
        }
    }
}

proof fn lemma_unit_from_step(ps: Seq<Production>, i: int, j: int)
    requires
        0 <= i < ps.len(),
        0 <= j < ps.len(),
    ensures
        (!is_unit(ps[j]@) && is_unit(ps[i]@) && ps[i]@.right[0] == Symbol::N(ps[j]@.left) && ps[
        j]@.left != ps[i]@.left) ==> forall|m: ProductionModel|
            unit_import_from(m, ps, i, j + 1) <==> (unit_import_from(m, ps, i, j) || m
                == (ProductionModel { left: ps[i]@.left, right: ps[j]@.right })),
        !(!is_unit(ps[j]@) && is_unit(ps[i]@) && ps[i]@.right[0] == Symbol::N(ps[j]@.left) && ps[
        j]@.left != ps[i]@.left) ==> forall|m: ProductionModel|
            unit_import_from(m, ps, i, j + 1) <==> unit_import_from(m, ps, i, j),
{
    assert forall|m: ProductionModel| unit_import_from(m, ps, i, j + 1) implies (
    unit_import_from(m, ps, i, j) || (!is_unit(ps[j]@) && is_unit(ps[i]@) && ps[i]@.right[0]
        == Symbol::N(ps[j]@.left) && ps[j]@.left != ps[i]@.left && m == (ProductionModel {
        left: ps[i]@.left,
        right: ps[j]@.right,
    }))) by {
        let j1 = choose|jx: int|
            0 <= jx < j + 1 && !is_unit(#[trigger] ps[jx]@) && is_unit(ps[i]@) && ps[i]@.right[0]
                == Symbol::N(ps[jx]@.left) && ps[jx]@.left != ps[i]@.left && m
                == (ProductionModel { left: ps[i]@.left, right: ps[jx]@.right });
        if j1 < j {
            assert(unit_import_from(m, ps, i, j));
        }
    }
    assert forall|m: ProductionModel| unit_import_from(m, ps, i, j) implies unit_import_from(
        m,
        ps,
        i,
        j + 1,
    ) by {
        let j1 = choose|jx: int|
            0 <= jx < j && !is_unit(#[trigger] ps[jx]@) && is_unit(ps[i]@) && ps[i]@.right[0]
                == Symbol::N(ps[jx]@.left) && ps[jx]@.left != ps[i]@.left && m
                == (ProductionModel { left: ps[i]@.left, right: ps[jx]@.right });
        assert(!is_unit(ps[j1]@));
    }
}

proof fn lemma_unit_upto_step(ps: Seq<Production>, i: int)
    requires
        0 <= i < ps.len(),
    ensures
        forall|m: ProductionModel|
            unit_import_upto(m, ps, i + 1) <==> (unit_import_upto(m, ps, i)
                || unit_import_from(m, ps, i, ps.len() as int)),
{
    assert forall|m: ProductionModel| unit_import_upto(m, ps, i + 1) implies (unit_import_upto(
        m,
        ps,
        i,
    ) || unit_import_from(m, ps, i, ps.len() as int)) by {
        let i1 = choose|ix: int|
            0 <= ix < i + 1 && #[trigger] unit_import_from(m, ps, ix, ps.len() as int);
        if i1 < i {
            assert(unit_import_upto(m, ps, i));
        }
    }
    assert forall|m: ProductionModel| unit_import_upto(m, ps, i) implies unit_import_upto(
        m,
        ps,
        i + 1,
    ) by {
        let i1 = choose|ix: int|
            0 <= ix < i && #[trigger] unit_import_from(m, ps, ix, ps.len() as int);
        assert(unit_import_from(m, ps, i1, ps.len() as int));
    }
}

/// Unit removal is a no-op on an already unit-free production list: no
/// rule is dropped, and nothing is imported, so the surviving set equals
/// the input set. Together with the membership contract of the unit pass
/// this says the pass leaves a unit-free grammar's rules unchanged.
pub proof fn lemma_unit_free_noop(ps: Seq<Production>)
    requires
        forall|m: ProductionModel| #[trigger] prods_contain(ps, m) ==> !is_unit(m),
    ensures
        forall|m: ProductionModel|
            ((prods_contain(ps, m) && !is_unit(m)) || is_unit_import(m, ps)) <==> #[trigger]
            prods_contain(ps, m),
{
    assert forall|m: ProductionModel| !is_unit_import(m, ps) by {
        if is_unit_import(m, ps) {
            let i1 = choose|ix: int|
                0 <= ix < ps.len() && #[trigger] unit_import_from(m, ps, ix, ps.len() as int);
            let j1 = choose|jx: int|
                0 <= jx < ps.len() && !is_unit(#[trigger] ps[jx]@) && is_unit(ps[i1]@) && ps[
                i1]@.right[0] == Symbol::N(ps[jx]@.left) && ps[jx]@.left != ps[i1]@.left && m
                    == (ProductionModel { left: ps[i1]@.left, right: ps[jx]@.right });
            assert(prods_contain(ps, ps[i1]@));
            assert(false);
        }
    }
}

proof fn lemma_unit_from_none(ps: Seq<Production>, i: int)
    requires
        0 <= i < ps.len(),
        !is_unit(ps[i]@) || (ps[i]@.right.len() == 1 && ps[i]@.right[0] == Symbol::N(
            ps[i]@.left,
        )),
    ensures
        forall|m: ProductionModel| !unit_import_from(m, ps, i, ps.len() as int),
{
    assert forall|m: ProductionModel| !unit_import_from(m, ps, i, ps.len() as int) by {
        if unit_import_from(m, ps, i, ps.len() as int) {
            let j1 = choose|jx: int|
                0 <= jx < ps.len() && !is_unit(#[trigger] ps[jx]@) && is_unit(ps[i]@) && ps[
                i]@.right[0] == Symbol::N(ps[jx]@.left) && ps[jx]@.left != ps[i]@.left && m
                    == (ProductionModel { left: ps[i]@.left, right: ps[jx]@.right });
            assert(false);
        }
    }
}

/// Epsilon productions survive only on the start symbol, and then the start
/// symbol occurs in no right-hand side (it was freshly synthesized).
/// The epsilon pass's input/output relation, exactly as its contract
/// states it: non-epsilon originals, nullable deletion variants, and the
/// two fresh-start rules when the old start literally carried epsilon.
pub open spec fn epsilon_pass_rel(g: CFG, r: CFG) -> bool {
    &&& forall|m: ProductionModel|
        #[trigger] prods_contain(r.productions@, m) <==> (eps_base(g.productions@, m) || (
        is_nullable_variant_of(m, g.productions@) && !is_eps(m) && !is_self_unit(m)) || (
        has_eps_on(g.productions@, g.start) && (m == (ProductionModel {
            left: r.start,
            right: Seq::<Symbol>::empty(),
        }) || m == (ProductionModel { left: r.start, right: seq![Symbol::N(g.start)] }))))
    &&& (!has_eps_on(g.productions@, g.start) ==> r.start == g.start)
    &&& (has_eps_on(g.productions@, g.start) ==> Some(r.start.symbol) == last_free_in(
        alpha_spec(),
        g.variables@,
    ) && !g.variables@.contains(r.start) && r.start != g.start)
}

/// The unit pass's input/output relation: non-unit originals plus the
/// unit imports, with the start symbol kept.
pub open spec fn unit_pass_rel(g: CFG, r: CFG) -> bool {
    &&& r.start == g.start
    &&& forall|m: ProductionModel|
        #[trigger] prods_contain(r.productions@, m) <==> ((prods_contain(g.productions@, m)
            && !is_unit(m)) || is_unit_import(m, g.productions@))
}

/// The useless pass's input/output relation: the generating filter over
/// the input's least generating set, with the start symbol kept.
pub open spec fn useless_pass_rel(g: CFG, r: CFG) -> bool {
    &&& r.start == g.start
    &&& forall|m: ProductionModel|
        #[trigger] prods_contain(r.productions@, m) <==> (prods_contain(g.productions@, m)
            && generating_set(g.productions@).contains(m.left) && all_gen(
            m.right,
            generating_set(g.productions@),
        ))
}

/// The unreachable pass's input/output relation: the reachability filter
/// from the start symbol, with the start symbol kept.
pub open spec fn unreachable_pass_rel(g: CFG, r: CFG) -> bool {
    &&& r.start == g.start
    &&& forall|m: ProductionModel|
        #[trigger] prods_contain(r.productions@, m) <==> (prods_contain(g.productions@, m)
            && spec_reachable(g.productions@, g.start, m.left))
}

/// The whole pipeline's input/output relation: the four pass relations
/// composed in their fixed order through intermediate grammars. Each
/// relation determines its output's production set and start symbol from
/// its input's, so this pins the pipeline's result.
pub open spec fn simplify_rel(g: CFG, r: CFG) -> bool {
    exists|g1: CFG, g2: CFG, g3: CFG|
        #![trigger epsilon_pass_rel(g, g1), unit_pass_rel(g1, g2), useless_pass_rel(g2, g3)]
        epsilon_pass_rel(g, g1) && unit_pass_rel(g1, g2) && useless_pass_rel(g2, g3)
            && unreachable_pass_rel(g3, r)
}

pub open spec fn eps_ok(g: CFG) -> bool {
    forall|m: ProductionModel|
        #[trigger] prods_contain(g.productions@, m) && is_eps(m) ==> m.left == g.start
            && !nt_in_some_rhs(g.productions@, g.start)
}

/// A context-free grammar: a start symbol, a duplicate-free list of
/// productions, and the derived list of its variables.
#[derive(Debug)]
pub struct CFG {
    pub start: Nonterminal,
    pub productions: Vec<Production>,
    pub variables: Vec<Nonterminal>,
}

impl CFG {
    /// The grammar is closed: `variables` lists exactly the nonterminals
    /// occurring in the productions, and both lists are duplicate-free.
    pub open spec fn wf(self) -> bool {
        &&& forall|a: Nonterminal| self.variables@.contains(a) <==> is_variable_of(
            self.productions@,
            a,
        )
        &&& distinct_nts(self.variables@)
        &&& distinct_prods(self.productions@)
    }

    /// Builds a grammar from a start symbol and a list of rules; repeated
    /// rules collapse, and the variable list is derived from the rules.
    pub fn new(start: Nonterminal, prods: Vec<Production>) -> (r: CFG)
        ensures
            r.wf(),
            r.start == start,
            forall|m: ProductionModel| prods_contain(r.productions@, m) <==> prods_contain(
                prods@,
                m,
            ),
    {
        let mut cfg = CFG { start, productions: Vec::new(), variables: Vec::new() };
        let mut i: usize = 0;
        while i < prods.len()
            invariant
                i <= prods.len(),
                cfg.start == start,
                distinct_prods(cfg.productions@),
                forall|m: ProductionModel| prods_contain(cfg.productions@, m) <==> prods_contain(
                    prods@.take(i as int),
                    m,
                ),
            decreases prods.len() - i,
        {
            proof {
                assert(forall|k: int| 0 <= k < i + 1 ==> prods@.take(i + 1 as int)[k]
                    == prods@[k]);
                assert(forall|k: int| 0 <= k < i ==> prods@.take(i as int)[k] == prods@[k]);
                assert(prods@.take(i + 1 as int)[i as int]@ == prods@[i as int]@);
                assert(forall|m: ProductionModel| #[trigger] prods_contain(
                    prods@.take(i as int),
                    m,
                ) ==> prods_contain(prods@.take(i + 1 as int), m));
                assert(prods_contain(prods@.take(i + 1 as int), prods@[i as int]@));
                assert(forall|m: ProductionModel| #[trigger] prods_contain(
                    prods@.take(i + 1 as int),
                    m,
                ) ==> (prods_contain(prods@.take(i as int), m) || m == prods@[i as int]@));
            }
            insert_prod(&mut cfg.productions, prods[i].clone());
            i = i + 1;
        }
        proof {
            assert(prods@.take(prods@.len() as int) =~= prods@);
        }
        cfg.update_variables();
        cfg
    }

    /// Recomputes `variables` as the set of nonterminals the productions
    /// mention; the rules themselves are untouched.
    pub fn update_variables(&mut self)
        ensures
            final(self).start == old(self).start,
            final(self).productions == old(self).productions,
            forall|a: Nonterminal| final(self).variables@.contains(a) <==> is_variable_of(
                final(self).productions@,
                a,
            ),
            distinct_nts(final(self).variables@),
    {
        let ghost ps = self.productions@;
        let mut vars: Vec<Nonterminal> = Vec::new();
        let mut i: usize = 0;
        while i < self.productions.len()
            invariant
                i <= self.productions.len(),
                self.productions@ == ps,
                self.start == old(self).start,
                distinct_nts(vars@),
                forall|a: Nonterminal| vars@.contains(a) <==> is_variable_of(
                    ps.take(i as int),
                    a,
                ),
            decreases self.productions.len() - i,
        {
            let rule = &self.productions[i];
            insert_nt(&mut vars, rule.left);
            let mut j: usize = 0;
            while j < rule.right.len()
                invariant
                    j <= rule.right.len(),
                    i < self.productions.len(),
                    self.productions@ == ps,
                    rule == ps[i as int],
                    distinct_nts(vars@),
                    forall|a: Nonterminal| vars@.contains(a) <==> (is_variable_of(
                        ps.take(i as int),
                        a,
                    ) || ps[i as int]@.left == a || exists|k: int|
                        0 <= k < j && ps[i as int]@.right[k] == Symbol::N(a)),
                decreases rule.right.len() - j,
            {
                match rule.right[j] {
                    Symbol::N(n) => {
                        insert_nt(&mut vars, n);
                    },
                    Symbol::T(_) => {},
                }
                proof {
                    assert(forall|a: Nonterminal|
                        (exists|k: int| 0 <= k < j + 1 && ps[i as int]@.right[k] == Symbol::N(a))
                            <==> ((exists|k: int|
                            0 <= k < j && ps[i as int]@.right[k] == Symbol::N(a)) || ps[
                        i as int]@.right[j as int] == Symbol::N(a)));
                }
                j = j + 1;
            }
            proof {
                assert(forall|k: int| 0 <= k < i + 1 ==> ps.take(i + 1 as int)[k] == ps[k]);
                assert(forall|k: int| 0 <= k < i ==> ps.take(i as int)[k] == ps[k]);
                assert(ps.take(i + 1 as int)[i as int]@ == ps[i as int]@);
                assert(forall|a: Nonterminal| #[trigger] is_variable_of(ps.take(i as int), a)
                    ==> is_variable_of(ps.take(i + 1 as int), a));
                assert(forall|a: Nonterminal| #[trigger] prod_mentions(ps[i as int]@, a)
                    ==> is_variable_of(ps.take(i + 1 as int), a));
                assert(forall|a: Nonterminal| #[trigger] is_variable_of(ps.take(i + 1 as int), a)
                    ==> (is_variable_of(ps.take(i as int), a) || prod_mentions(
                        ps[i as int]@,
                        a,
                    )));
            }
            i = i + 1;
        }
        proof {
            assert(ps.take(ps.len() as int) =~= ps);
        }
        self.variables = vars;
    }

    /// Picks a fresh nonterminal from the fixed pool: the last pool symbol
    /// that is not yet a variable of this grammar. The pool is finite, so a
    /// grammar already using all of it admits no fresh symbol; that
    /// exhaustion is excluded here and surfaces as an error in the callers.
    pub fn get_new_start(&self) -> (r: Nonterminal)
        requires
            last_free_in(alpha_spec(), self.variables@) is Some,
        ensures
            Some(r.symbol) == last_free_in(alpha_spec(), self.variables@),
            !self.variables@.contains(r),
    {
        let alpha = alpha_str();
        let mut i: usize = alpha.unicode_len();
        proof {
            assert(alpha_spec().take(alpha_spec().len() as int) =~= alpha_spec());
        }
        while i > 0
            invariant
                alpha@ == alpha_spec(),
                i <= alpha_spec().len(),
                last_free_in(alpha_spec().take(i as int), self.variables@) == last_free_in(
                    alpha_spec(),
                    self.variables@,
                ),
            decreases i,
        {
            let c = alpha.get_char(i - 1);
            let cand = Nonterminal::new(c);
            proof {
                assert(alpha_spec().take(i as int).last() == c);
                assert(alpha_spec().take(i as int).drop_last() =~= alpha_spec().take(i - 1));
            }
            if !contains_nt(&self.variables, cand) {
                return cand;
            }
            i = i - 1;
        }
        proof {
            assert(alpha_spec().take(0) =~= Seq::<char>::empty());
            assert(false);
        }
        Nonterminal::new('A')
    }

    /// Computes the nullable nonterminals by fixed-point iteration: a
    /// nonterminal is nullable when one of its productions has an empty
    /// right-hand side or one made only of known-nullable nonterminals.
    #[verifier::loop_isolation(false)]
    #[verifier::rlimit(50)]
    fn compute_nullable(&self) -> (ns: Vec<Nonterminal>)
        requires
            self.wf(),
        ensures
            distinct_nts(ns@),
            forall|a: Nonterminal| ns@.contains(a) <==> spec_nullable(self.productions@, a),
    {
        let ghost ps = self.productions@;
        let mut nullable: Vec<Nonterminal> = Vec::new();
        let ghost mut gn: nat = 0;
        let mut changed = true;
        while changed
            invariant
                distinct_nts(nullable@),
                forall|t: int| 0 <= t < nullable@.len() ==> self.variables@.contains(
                    #[trigger] nullable@[t],
                ),
                nullable@.len() <= self.variables@.len(),
                forall|a: Nonterminal| nullable@.contains(a) ==> nullable_iter(ps, gn).contains(
                    a,
                ),
                !changed ==> forall|a: Nonterminal|
                    nullable_step(ps, nts_set(nullable@), a) ==> nullable@.contains(a),
            decreases self.variables@.len() - nullable@.len(), (if changed {
                1int
            } else {
                0int
            }),
        {
            changed = false;
            let ghost pre_len = nullable@.len();
            let mut i: usize = 0;
            while i < self.productions.len()
                invariant
                    i <= self.productions.len(),
                    distinct_nts(nullable@),
                    pre_len <= nullable@.len(),
                    changed == (nullable@.len() > pre_len),
                    forall|t: int| 0 <= t < nullable@.len() ==> self.variables@.contains(
                        #[trigger] nullable@[t],
                    ),
                    nullable@.len() <= self.variables@.len(),
                    forall|a: Nonterminal| nullable@.contains(a) ==> nullable_iter(
                        ps,
                        gn,
                    ).contains(a),
                    !changed ==> forall|j: int|
                        0 <= j < i && all_nullable(#[trigger] ps[j]@.right, nts_set(nullable@))
                            ==> nullable@.contains(ps[j]@.left),
                decreases self.productions.len() - i,
            {
                let rule = &self.productions[i];
                if rhs_all_nullable(&rule.right, &nullable) {
                    proof {
                        assert((#[trigger] ps[i as int]@).left == rule.left);
                        assert(all_nullable(ps[i as int]@.right, nts_set(nullable@)));
                        assert(nullable_step(ps, nts_set(nullable@), rule.left));
                        assert(nts_set(nullable@).subset_of(nullable_iter(ps, gn)));
                        lemma_nullable_step_mono(ps, nts_set(nullable@), nullable_iter(ps, gn));
                        lemma_nullable_iter_mono(ps, gn);
                        assert(nullable_iter(ps, gn + 1).contains(rule.left));
                        assert(prod_mentions(ps[i as int]@, rule.left));
                        assert(is_variable_of(ps, rule.left));
                    }
                    if insert_nt(&mut nullable, rule.left) {
                        changed = true;
                    }
                    proof {
                        gn = gn + 1;
                        lemma_distinct_in_universe(nullable@, self.variables@);
                    }
                }
                i = i + 1;
            }
            proof {
                if !changed {
                    assert forall|a: Nonterminal|
                        nullable_step(ps, nts_set(nullable@), a) implies nullable@.contains(
                        a,
                    ) by {
                        let i1 = choose|i: int|
                            0 <= i < ps.len() && (#[trigger] ps[i]@).left == a && all_nullable(
                                ps[i]@.right,
                                nts_set(nullable@),
                            );
                        assert(all_nullable(ps[i1]@.right, nts_set(nullable@)));
                    }
                }
            }
        }
        proof {
            assert forall|a: Nonterminal| nullable@.contains(a) <==> spec_nullable(ps, a) by {
                if nullable@.contains(a) {
                    assert(nullable_iter(ps, gn).contains(a));
                }
                if spec_nullable(ps, a) {
                    let n = choose|n: nat| nullable_iter(ps, n).contains(a);
                    lemma_nullable_iter_closed(ps, nts_set(nullable@), n);
                }
            }
        }
        nullable
    }

    /// Keeps every non-epsilon production and reports whether the start
    /// symbol carries a literal epsilon production.
    #[verifier::loop_isolation(false)]
    fn base_rules(&self) -> (r: (Vec<Production>, bool))
        ensures
            distinct_prods(r.0@),
            forall|m: ProductionModel| #[trigger] prods_contain(r.0@, m) <==> eps_base(
                self.productions@,
                m,
            ),
            r.1 == has_eps_on(self.productions@, self.start),
    {
        let ghost ps = self.productions@;
        let mut new_rules: Vec<Production> = Vec::new();
        let mut start_has_epsilon = false;
        let mut i: usize = 0;
        while i < self.productions.len()
            invariant
                i <= self.productions.len(),
                distinct_prods(new_rules@),
                start_has_epsilon == has_eps_on(ps.take(i as int), self.start),
                forall|m: ProductionModel|
                    #[trigger] prods_contain(new_rules@, m) <==> eps_base(ps.take(i as int), m),
            decreases self.productions.len() - i,
        {
            proof {
                assert(forall|k: int| 0 <= k < i + 1 ==> ps.take(i + 1 as int)[k] == ps[k]);
                assert(forall|k: int| 0 <= k < i ==> ps.take(i as int)[k] == ps[k]);
                assert(ps.take(i + 1 as int)[i as int]@ == ps[i as int]@);
                assert(forall|m: ProductionModel| #[trigger] prods_contain(ps.take(i as int), m)
                    ==> prods_contain(ps.take(i + 1 as int), m));
                assert(prods_contain(ps.take(i + 1 as int), ps[i as int]@));
                assert(forall|m: ProductionModel| #[trigger] prods_contain(
                    ps.take(i + 1 as int),
                    m,
                ) ==> (prods_contain(ps.take(i as int), m) || m == ps[i as int]@));
                assert(has_eps_on(ps.take(i as int), self.start) ==> has_eps_on(
                    ps.take(i + 1 as int),
                    self.start,
                ));
                assert(has_eps_on(ps.take(i + 1 as int), self.start) ==> (has_eps_on(
                    ps.take(i as int),
                    self.start,
                ) || (ps[i as int]@.left == self.start && is_eps(ps[i as int]@))));
            }
            let rule = &self.productions[i];
            if rule.right.len() > 0 {
                insert_prod(&mut new_rules, rule.clone());
            } else {
                if rule.left == self.start {
                    start_has_epsilon = true;
                }
            }
            i = i + 1;
        }
        proof {
            assert(ps.take(ps.len() as int) =~= ps);
        }
        (new_rules, start_has_epsilon)
    }

    /// Adds, for every right-hand occurrence of a listed nullable
    /// nonterminal, the variant with that single occurrence deleted,
    /// skipping variants that would be epsilon productions or direct
    /// self-loop units.
    #[verifier::loop_isolation(false)]
    #[verifier::rlimit(100)]
    fn add_variants(&self, rules_in: Vec<Production>, nullable: &Vec<Nonterminal>) -> (r: Vec<
        Production,
    >)
        requires
            distinct_prods(rules_in@),
            forall|m: ProductionModel| #[trigger] prods_contain(rules_in@, m) <==> eps_base(
                self.productions@,
                m,
            ),
            forall|a: Nonterminal| nullable@.contains(a) <==> spec_nullable(
                self.productions@,
                a,
            ),
        ensures
            distinct_prods(r@),
            forall|m: ProductionModel|
                #[trigger] prods_contain(r@, m) <==> (eps_base(self.productions@, m) || (
                is_nullable_variant_of(m, self.productions@) && !is_eps(m) && !is_self_unit(m))),
    {
        let ghost ps = self.productions@;
        let mut new_rules = rules_in;
        let mut n: usize = 0;
        while n < nullable.len()
            invariant
                n <= nullable.len(),
                distinct_prods(new_rules@),
                forall|m: ProductionModel|
                    #[trigger] prods_contain(new_rules@, m) <==> (eps_base(ps, m) || (variant_with(
                        ps,
                        nullable@.take(n as int),
                        m,
                    ) && !is_eps(m) && !is_self_unit(m))),
            decreases nullable.len() - n,
        {
            let b = nullable[n];
            proof {
                lemma_upto_zero(ps, b);
            }
            let mut j: usize = 0;
            while j < self.productions.len()
                invariant
                    j <= self.productions.len(),
                    n < nullable.len(),
                    b == nullable@[n as int],
                    distinct_prods(new_rules@),
                    forall|m: ProductionModel|
                        #[trigger] prods_contain(new_rules@, m) <==> (eps_base(ps, m) || (variant_with(
                            ps,
                            nullable@.take(n as int),
                            m,
                        ) && !is_eps(m) && !is_self_unit(m)) || (variant_of_nt_upto(
                            ps,
                            b,
                            j as int,
                            0,
                            m,
                        ) && !is_eps(m) && !is_self_unit(m))),
                decreases self.productions.len() - j,
            {
                let rule_len = self.productions[j].right.len();
                let mut kk: usize = 0;
                while kk < rule_len
                    invariant
                        kk <= rule_len,
                        j < self.productions.len(),
                        rule_len == ps[j as int]@.right.len(),
                        n < nullable.len(),
                        b == nullable@[n as int],
                        distinct_prods(new_rules@),
                        forall|m: ProductionModel|
                            #[trigger] prods_contain(new_rules@, m) <==> (eps_base(ps, m) || (variant_with(
                                ps,
                                nullable@.take(n as int),
                                m,
                            ) && !is_eps(m) && !is_self_unit(m)) || (variant_of_nt_upto(
                                ps,
                                b,
                                j as int,
                                kk as int,
                                m,
                            ) && !is_eps(m) && !is_self_unit(m))),
                    decreases rule_len - kk,
                {
                    let hit = match self.productions[j].right[kk] {
                        Symbol::N(nn) => nn == b,
                        Symbol::T(_) => false,
                    };
                    if hit {
                        let mut new_p = self.productions[j].clone();
                        new_p.right.remove(kk);
                        let ghost mv = ProductionModel {
                            left: ps[j as int]@.left,
                            right: ps[j as int]@.right.remove(kk as int),
                        };
                        proof {
                            assert(new_p@ == mv);
                            lemma_upto_step(ps, b, j as int, kk as int);
                        }
                        let keep = if new_p.right.len() == 0 {
                            false
                        } else if new_p.right.len() == 1 {
                            new_p.right[0] != Symbol::N(new_p.left)
                        } else {
                            true
                        };
                        proof {
                            assert(keep == (!is_eps(mv) && !is_self_unit(mv)));
                        }
                        if keep {
                            insert_prod(&mut new_rules, new_p);
                        }
                    } else {
                        proof {
                            lemma_upto_step(ps, b, j as int, kk as int);
                        }
                    }
                    kk = kk + 1;
                }
                proof {
                    lemma_upto_next_rule(ps, b, j as int);
                }
                j = j + 1;
            }
            proof {
                lemma_variant_with_extend(ps, nullable@, n as int);
                assert forall|m: ProductionModel| #[trigger] prods_contain(new_rules@, m) implies
                    (eps_base(ps, m) || (variant_with(ps, nullable@.take(n + 1 as int), m)
                        && !is_eps(m) && !is_self_unit(m))) by {
                    assert(variant_of_nt_upto(ps, b, j as int, 0, m) == variant_of_nt_upto(
                        ps,
                        b,
                        ps.len() as int,
                        0,
                        m,
                    ));
                }
                assert forall|m: ProductionModel|
                    (eps_base(ps, m) || (variant_with(ps, nullable@.take(n + 1 as int), m)
                        && !is_eps(m) && !is_self_unit(m))) implies #[trigger] prods_contain(
                    new_rules@,
                    m,
                ) by {
                    assert(variant_of_nt_upto(ps, b, j as int, 0, m) == variant_of_nt_upto(
                        ps,
                        b,
                        ps.len() as int,
                        0,
                        m,
                    ));
                }
            }
            n = n + 1;
        }
        proof {
            assert(nullable@.take(nullable@.len() as int) =~= nullable@);
            lemma_variant_with_full(ps, nullable@);
            assert forall|m: ProductionModel| prods_contain(new_rules@, m) implies (eps_base(
                ps,
                m,
            ) || (is_nullable_variant_of(m, ps) && !is_eps(m) && !is_self_unit(m))) by {
                assert(variant_with(ps, nullable@.take(n as int), m) == variant_with(
                    ps,
                    nullable@,
                    m,
                ));
            }
            assert forall|m: ProductionModel|
                (eps_base(ps, m) || (is_nullable_variant_of(m, ps) && !is_eps(m)
                    && !is_self_unit(m))) implies prods_contain(new_rules@, m) by {
                assert(variant_with(ps, nullable@.take(n as int), m) == variant_with(
                    ps,
                    nullable@,
                    m,
                ));
            }
        }
        new_rules
    }

    /// Removes epsilon productions. The nullable nonterminals are closed
    /// under fixed-point iteration; every non-epsilon production is kept,
    /// and for each right-hand occurrence of a nullable nonterminal a
    /// variant with that single occurrence deleted is added, unless the
    /// variant would be an epsilon production or a direct self-loop unit.
    /// Only when the start symbol literally carries an epsilon production
    /// is a fresh start synthesized with `fresh -> epsilon | old start`;
    /// indirect nullability of the start symbol is deliberately not
    /// detected, mirroring the syntactic convention this pass follows.
    #[verifier::loop_isolation(false)]
    #[verifier::rlimit(100)]
    pub fn remove_epsilon_rules(&self) -> (r: CFG)
        requires
            self.wf(),
            has_eps_on(self.productions@, self.start) ==> last_free_in(
                alpha_spec(),
                self.variables@,
            ) is Some,
        ensures
            r.wf(),
            eps_ok(r),
            forall|m: ProductionModel|
                #[trigger] prods_contain(r.productions@, m) <==> (eps_base(self.productions@, m) || (
                is_nullable_variant_of(m, self.productions@) && !is_eps(m) && !is_self_unit(m))
                    || (has_eps_on(self.productions@, self.start) && (m == (ProductionModel {
                    left: r.start,
                    right: Seq::<Symbol>::empty(),
                }) || m == (ProductionModel {
                    left: r.start,
                    right: seq![Symbol::N(self.start)],
                })))),
            !has_eps_on(self.productions@, self.start) ==> r.start == self.start,
            has_eps_on(self.productions@, self.start) ==> Some(r.start.symbol) == last_free_in(
                alpha_spec(),
                self.variables@,
            ) && !self.variables@.contains(r.start) && r.start != self.start,
            epsilon_pass_rel(*self, r),
    {
        let ghost ps = self.productions@;
        let nullable = self.compute_nullable();
        let pair = self.base_rules();
        let start_has_epsilon = pair.1;
        let mut new_rules = self.add_variants(pair.0, &nullable);
        let ghost base_snap = new_rules@;
        // Synthesize a fresh start symbol when the old one literally
        // carried an epsilon production.
        let mut start = self.start;
        if contains_nt(&nullable, self.start) && start_has_epsilon {
            proof {
                let iw = choose|i: int|
                    0 <= i < ps.len() && (#[trigger] ps[i]@).left == self.start && is_eps(
                        ps[i]@,
                    );
                assert(prod_mentions(ps[iw]@, self.start));
                assert(is_variable_of(ps, self.start));
                assert(self.variables@.contains(self.start));
            }
            let new_start = self.get_new_start();
            proof {
                assert(new_start != self.start);
            }
            insert_prod(&mut new_rules, Production::new(new_start, Vec::new()));
            let mut right: Vec<Symbol> = Vec::new();
            right.push(Symbol::N(self.start));
            proof {
                assert(right@ =~= seq![Symbol::N(self.start)]);
            }
            insert_prod(&mut new_rules, Production::new(new_start, right));
            start = new_start;
            proof {
                assert forall|m: ProductionModel| prods_contain(new_rules@, m) implies (eps_base(
                    ps,
                    m,
                ) || (is_nullable_variant_of(m, ps) && !is_eps(m) && !is_self_unit(m)) || m
                    == (ProductionModel { left: new_start, right: Seq::<Symbol>::empty() }) || m
                    == (ProductionModel {
                    left: new_start,
                    right: seq![Symbol::N(self.start)],
                })) by {
                    if prods_contain(base_snap, m) {
                    }
                }
                assert forall|m: ProductionModel|
                    (eps_base(ps, m) || (is_nullable_variant_of(m, ps) && !is_eps(m)
                        && !is_self_unit(m)) || m == (ProductionModel {
                        left: new_start,
                        right: Seq::<Symbol>::empty(),
                    }) || m == (ProductionModel {
                        left: new_start,
                        right: seq![Symbol::N(self.start)],
                    })) implies prods_contain(new_rules@, m) by {
                    if prods_contain(base_snap, m) {
                    }
                }
            }
        }
        proof {
            // An epsilon production on the start symbol makes it nullable,
            // so the nullability test cannot veto the synthesis.
            if start_has_epsilon {
                let i0 = choose|i: int|
                    0 <= i < ps.len() && (#[trigger] ps[i]@).left == self.start && is_eps(ps[i]@);
                assert(all_nullable(ps[i0]@.right, Set::empty()));
                assert(nullable_iter(ps, 1).contains(self.start));
                assert(spec_nullable(ps, self.start));
                assert(nullable@.contains(self.start));
            }
        }
        let result = CFG::new(start, new_rules);
        proof {
            let ghost rp = result.productions@;
            assert forall|m: ProductionModel| #[trigger] prods_contain(rp, m) implies (eps_base(
                ps,
                m,
            ) || (is_nullable_variant_of(m, ps) && !is_eps(m) && !is_self_unit(m)) || (
            has_eps_on(ps, self.start) && (m == (ProductionModel {
                left: start,
                right: Seq::<Symbol>::empty(),
            }) || m == (ProductionModel {
                left: start,
                right: seq![Symbol::N(self.start)],
            })))) by {
                assert(prods_contain(new_rules@, m) <==> prods_contain(rp, m));
            }
            assert forall|m: ProductionModel|
                (eps_base(ps, m) || (is_nullable_variant_of(m, ps) && !is_eps(m)
                    && !is_self_unit(m)) || (has_eps_on(ps, self.start) && (m
                    == (ProductionModel { left: start, right: Seq::<Symbol>::empty() }) || m
                    == (ProductionModel {
                    left: start,
                    right: seq![Symbol::N(self.start)],
                })))) implies #[trigger] prods_contain(rp, m) by {
                assert(prods_contain(new_rules@, m) <==> prods_contain(rp, m));
            }
            if start_has_epsilon {
                // The fresh start is no variable of the old grammar, so it
                // occurs in no surviving right-hand side.
                assert forall|m: ProductionModel|
                    #[trigger] prods_contain(result.productions@, m) implies !rhs_has_nt(
                    m,
                    start,
                ) by {
                    if rhs_has_nt(m, start) {
                        let p = choose|p: int|
                            0 <= p < m.right.len() && m.right[p] == Symbol::N(start);
                        if eps_base(ps, m) {
                            let i1 = choose|i: int| 0 <= i < ps.len() && #[trigger] ps[i]@ == m;
                            assert(prod_mentions(ps[i1]@, start));
                            assert(is_variable_of(ps, start));
                        } else if is_nullable_variant_of(m, ps) {
                            let (i1, k1): (int, int) = choose|i: int, k: int|
                                0 <= i < ps.len() && 0 <= k < ps[i]@.right.len() && (
                                #[trigger] ps[i]@.right[k]) is N && spec_nullable(
                                    ps,
                                    Nonterminal { symbol: ps[i]@.right[k].spec_symbol() },
                                ) && m == (ProductionModel {
                                    left: ps[i]@.left,
                                    right: ps[i]@.right.remove(k),
                                });
                            let q: int = if p < k1 {
                                p
                            } else {
                                p + 1
                            };
                            assert(ps[i1]@.right[q] == Symbol::N(start));
                            assert(rhs_has_nt(ps[i1]@, start));
                            assert(prod_mentions(ps[i1]@, start));
                            assert(is_variable_of(ps, start));
                        } else {
                            assert(m == (ProductionModel {
                                left: start,
                                right: Seq::<Symbol>::empty(),
                            }) || m == (ProductionModel {
                                left: start,
                                right: seq![Symbol::N(self.start)],
                            }));
                            assert(m.right[p] == Symbol::N(self.start));
                        }
                    }
                }
                assert(!nt_in_some_rhs(result.productions@, start)) by {
                    if nt_in_some_rhs(result.productions@, start) {
                        let i1 = choose|i: int|
                            0 <= i < result.productions@.len() && rhs_has_nt(
                                #[trigger] result.productions@[i]@,
                                start,
                            );
                        assert(prods_contain(result.productions@, result.productions@[i1]@));
                    }
                }
            }
            assert forall|m: ProductionModel| #[trigger] prods_contain(rp, m) && is_eps(
                m,
            ) implies m.left == result.start && !nt_in_some_rhs(rp, result.start) by {
                assert(seq![Symbol::N(self.start)].len() == 1);
            }
        }
        result
    }

    /// Removes unit productions. Every non-unit production is copied; a
    /// unit production `X -> B` is dropped and replaced, when `B` differs
    /// from `X`, by a copy `X -> w` of every non-unit production `B -> w`.
    /// A direct self-loop `X -> X` is simply dropped: for a direct unit
    /// rule, membership of its target in the left symbol's unit closure
    /// amounts to not being such a self-loop.
    #[verifier::loop_isolation(false)]
    #[verifier::rlimit(100)]
    pub fn remove_unit_rules(&self) -> (r: CFG)
        requires
            self.wf(),
        ensures
            r.wf(),
            r.start == self.start,
            forall|m: ProductionModel|
                #[trigger] prods_contain(r.productions@, m) <==> ((prods_contain(
                    self.productions@,
                    m,
                ) && !is_unit(m)) || is_unit_import(m, self.productions@)),
            forall|m: ProductionModel| #[trigger] prods_contain(r.productions@, m) ==> !is_unit(
                m,
            ),
            eps_ok(*self) ==> eps_ok(r),
            unit_pass_rel(*self, r),
    {
        let ghost ps = self.productions@;
        let mut new_rules: Vec<Production> = Vec::new();
        proof {
            assert forall|m: ProductionModel| !unit_import_upto(m, ps, 0) by {
                if unit_import_upto(m, ps, 0) {
                    let i1 = choose|ix: int|
                        0 <= ix < 0 && #[trigger] unit_import_from(m, ps, ix, ps.len() as int);
                    assert(false);
                }
            }
        }
        let mut i: usize = 0;
        while i < self.productions.len()
            invariant
                i <= self.productions.len(),
                distinct_prods(new_rules@),
                forall|m: ProductionModel|
                    #[trigger] prods_contain(new_rules@, m) <==> ((prods_contain(
                        ps.take(i as int),
                        m,
                    ) && !is_unit(m)) || unit_import_upto(m, ps, i as int)),
            decreases self.productions.len() - i,
        {
            proof {
                assert(forall|k: int| 0 <= k < i + 1 ==> ps.take(i + 1 as int)[k] == ps[k]);
                assert(forall|k: int| 0 <= k < i ==> ps.take(i as int)[k] == ps[k]);
                assert(ps.take(i + 1 as int)[i as int]@ == ps[i as int]@);
                assert(forall|m: ProductionModel| #[trigger] prods_contain(ps.take(i as int), m)
                    ==> prods_contain(ps.take(i + 1 as int), m));
                assert(prods_contain(ps.take(i + 1 as int), ps[i as int]@));
                assert(forall|m: ProductionModel| #[trigger] prods_contain(
                    ps.take(i + 1 as int),
                    m,
                ) ==> (prods_contain(ps.take(i as int), m) || m == ps[i as int]@));
                lemma_unit_upto_step(ps, i as int);
            }
            let rule = &self.productions[i];
            let unit_here = rule.right.len() == 1 && rule.right[0].is_nonterminal();
            if unit_here {
                let b = match rule.right[0] {
                    Symbol::N(nn) => nn,
                    Symbol::T(_) => {
                        proof {
                            assert(false);
                        }
                        Nonterminal::new('A')
                    },
                };
                if b != rule.left {
                    proof {
                        lemma_unit_from_zero(ps, i as int);
                    }
                    let mut j: usize = 0;
                    while j < self.productions.len()
                        invariant
                            j <= self.productions.len(),
                            i < self.productions.len(),
                            is_unit(ps[i as int]@),
                            ps[i as int]@.right[0] == Symbol::N(b),
                            b != ps[i as int]@.left,
                            rule == self.productions@[i as int],
                            distinct_prods(new_rules@),
                            forall|m: ProductionModel|
                                #[trigger] prods_contain(new_rules@, m) <==> ((prods_contain(
                                    ps.take(i as int),
                                    m,
                                ) && !is_unit(m)) || unit_import_upto(m, ps, i as int)
                                    || unit_import_from(m, ps, i as int, j as int)),
                        decreases self.productions.len() - j,
                    {
                        proof {
                            lemma_unit_from_step(ps, i as int, j as int);
                        }
                        let cand = &self.productions[j];
                        let cand_unit = cand.right.len() == 1 && cand.right[0].is_nonterminal();
                        if cand.left == b && !cand_unit {
                            let new_p = Production::new(rule.left, cand.clone().right);
                            proof {
                                assert(new_p@ == (ProductionModel {
                                    left: ps[i as int]@.left,
                                    right: ps[j as int]@.right,
                                }));
                            }
                            insert_prod(&mut new_rules, new_p);
                        }
                        j = j + 1;
                    }
                } else {
                    proof {
                        lemma_unit_from_none(ps, i as int);
                    }
                }
            } else {
                proof {
                    lemma_unit_from_none(ps, i as int);
                }
                insert_prod(&mut new_rules, rule.clone());
            }
            i = i + 1;
        }
        proof {
            assert(ps.take(ps.len() as int) =~= ps);
        }
        let result = CFG::new(self.start, new_rules);
        proof {
            let ghost rp = result.productions@;
            assert forall|m: ProductionModel| #[trigger] prods_contain(rp, m) implies ((
            prods_contain(ps, m) && !is_unit(m)) || is_unit_import(m, ps)) by {
                assert(prods_contain(new_rules@, m) <==> prods_contain(rp, m));
            }
            assert forall|m: ProductionModel|
                ((prods_contain(ps, m) && !is_unit(m)) || is_unit_import(m, ps)) implies
                #[trigger] prods_contain(rp, m) by {
                assert(prods_contain(new_rules@, m) <==> prods_contain(rp, m));
            }
            assert forall|m: ProductionModel| #[trigger] prods_contain(rp, m) implies !is_unit(
                m,
            ) by {
                if is_unit_import(m, ps) {
                    let i1 = choose|ix: int|
                        0 <= ix < ps.len() && #[trigger] unit_import_from(
                            m,
                            ps,
                            ix,
                            ps.len() as int,
                        );
                    let j1 = choose|jx: int|
                        0 <= jx < ps.len() && !is_unit(#[trigger] ps[jx]@) && is_unit(ps[i1]@)
                            && ps[i1]@.right[0] == Symbol::N(ps[jx]@.left) && ps[jx]@.left
                            != ps[i1]@.left && m == (ProductionModel {
                            left: ps[i1]@.left,
                            right: ps[jx]@.right,
                        });
                    assert(!is_unit(m));
                }
            }
            if eps_ok(*self) {
                assert forall|m: ProductionModel| #[trigger] prods_contain(rp, m) && is_eps(
                    m,
                ) implies m.left == result.start && !nt_in_some_rhs(rp, result.start) by {
                    if prods_contain(ps, m) && !is_unit(m) {
                        assert(m.left == self.start);
                    } else {
                        let i1 = choose|ix: int|
                            0 <= ix < ps.len() && #[trigger] unit_import_from(
                                m,
                                ps,
                                ix,
                                ps.len() as int,
                            );
                        let j1 = choose|jx: int|
                            0 <= jx < ps.len() && !is_unit(#[trigger] ps[jx]@) && is_unit(
                                ps[i1]@,
                            ) && ps[i1]@.right[0] == Symbol::N(ps[jx]@.left) && ps[jx]@.left
                                != ps[i1]@.left && m == (ProductionModel {
                                left: ps[i1]@.left,
                                right: ps[jx]@.right,
                            });
                        assert(prods_contain(ps, ps[j1]@));
                        assert(is_eps(ps[j1]@));
                        assert(ps[j1]@.left == self.start);
                        assert(rhs_has_nt(ps[i1]@, self.start));
                        assert(nt_in_some_rhs(ps, self.start));
                        assert(false);
                    }
                    assert(!nt_in_some_rhs(rp, result.start)) by {
                        if nt_in_some_rhs(rp, result.start) {
                            let w = choose|ix: int|
                                0 <= ix < rp.len() && rhs_has_nt(#[trigger] rp[ix]@, result.start);
                            let mw = rp[w]@;
                            assert(prods_contain(rp, mw));
                            if prods_contain(ps, mw) && !is_unit(mw) {
                                let iw = choose|ix: int|
                                    0 <= ix < ps.len() && #[trigger] ps[ix]@ == mw;
                                assert(rhs_has_nt(ps[iw]@, self.start));
                                assert(nt_in_some_rhs(ps, self.start));
                            } else {
                                let i2 = choose|ix: int|
                                    0 <= ix < ps.len() && #[trigger] unit_import_from(
                                        mw,
                                        ps,
                                        ix,
                                        ps.len() as int,
                                    );
                                let j2 = choose|jx: int|
                                    0 <= jx < ps.len() && !is_unit(#[trigger] ps[jx]@) && is_unit(
                                        ps[i2]@,
                                    ) && ps[i2]@.right[0] == Symbol::N(ps[jx]@.left) && ps[
                                    jx]@.left != ps[i2]@.left && mw == (ProductionModel {
                                        left: ps[i2]@.left,
                                        right: ps[jx]@.right,
                                    });
                                assert(rhs_has_nt(ps[j2]@, self.start));
                                assert(nt_in_some_rhs(ps, self.start));
                            }
                        }
                    }
                }
            }
        }
        result
    }

    /// Computes the generating nonterminals by fixed-point iteration: a
    /// nonterminal is generating when it has a production whose right-hand
    /// side is empty or made only of known-generating nonterminals.
    #[verifier::loop_isolation(false)]
    #[verifier::rlimit(50)]
    fn compute_generating(&self) -> (g: Vec<Nonterminal>)
        requires
            self.wf(),
        ensures
            distinct_nts(g@),
            forall|a: Nonterminal| g@.contains(a) <==> spec_generating(self.productions@, a),
    {
        let ghost ps = self.productions@;
        let mut gens: Vec<Nonterminal> = Vec::new();
        let ghost mut gn: nat = 0;
        let mut changed = true;
        while changed
            invariant
                distinct_nts(gens@),
                forall|t: int| 0 <= t < gens@.len() ==> self.variables@.contains(
                    #[trigger] gens@[t],
                ),
                gens@.len() <= self.variables@.len(),
                forall|a: Nonterminal| gens@.contains(a) ==> gen_iter(ps, gn).contains(a),
                !changed ==> forall|a: Nonterminal|
                    gen_step(ps, nts_set(gens@), a) ==> gens@.contains(a),
            decreases self.variables@.len() - gens@.len(), (if changed {
                1int
            } else {
                0int
            }),
        {
            changed = false;
            let ghost pre_len = gens@.len();
            let mut i: usize = 0;
            while i < self.productions.len()
                invariant
                    i <= self.productions.len(),
                    distinct_nts(gens@),
                    pre_len <= gens@.len(),
                    changed == (gens@.len() > pre_len),
                    forall|t: int| 0 <= t < gens@.len() ==> self.variables@.contains(
                        #[trigger] gens@[t],
                    ),
                    gens@.len() <= self.variables@.len(),
                    forall|a: Nonterminal| gens@.contains(a) ==> gen_iter(ps, gn).contains(a),
                    !changed ==> forall|j: int|
                        0 <= j < i && all_gen(#[trigger] ps[j]@.right, nts_set(gens@))
                            ==> gens@.contains(ps[j]@.left),
                decreases self.productions.len() - i,
            {
                let rule = &self.productions[i];
                if rhs_all_gen(&rule.right, &gens) {
                    proof {
                        assert((#[trigger] ps[i as int]@).left == rule.left);
                        assert(all_gen(ps[i as int]@.right, nts_set(gens@)));
                        assert(gen_step(ps, nts_set(gens@), rule.left));
                        assert(nts_set(gens@).subset_of(gen_iter(ps, gn)));
                        lemma_gen_step_mono(ps, nts_set(gens@), gen_iter(ps, gn));
                        lemma_gen_iter_mono(ps, gn);
                        assert(gen_iter(ps, gn + 1).contains(rule.left));
                        assert(prod_mentions(ps[i as int]@, rule.left));
                        assert(is_variable_of(ps, rule.left));
                    }
                    if insert_nt(&mut gens, rule.left) {
                        changed = true;
                    }
                    proof {
                        gn = gn + 1;
                        lemma_distinct_in_universe(gens@, self.variables@);
                    }
                }
                i = i + 1;
            }
            proof {
                if !changed {
                    assert forall|a: Nonterminal|
                        gen_step(ps, nts_set(gens@), a) implies gens@.contains(a) by {
                        let i1 = choose|i: int|
                            0 <= i < ps.len() && (#[trigger] ps[i]@).left == a && all_gen(
                                ps[i]@.right,
                                nts_set(gens@),
                            );
                        assert(all_gen(ps[i1]@.right, nts_set(gens@)));
                    }
                }
            }
        }
        proof {
            assert forall|a: Nonterminal| gens@.contains(a) <==> spec_generating(ps, a) by {
                if gens@.contains(a) {
                    assert(gen_iter(ps, gn).contains(a));
                }
                if spec_generating(ps, a) {
                    let n = choose|n: nat| gen_iter(ps, n).contains(a);
                    lemma_gen_iter_closed(ps, nts_set(gens@), n);
                }
            }
        }
        gens
    }

    /// Removes useless productions: only rules whose left symbol is
    /// generating and whose right-hand nonterminals are all generating
    /// survive. Every nonterminal still occurring in a right-hand side
    /// afterwards keeps a production of its own.
    #[verifier::loop_isolation(false)]
    #[verifier::rlimit(100)]
    pub fn remove_useless_rules(&self) -> (r: CFG)
        requires
            self.wf(),
        ensures
            r.wf(),
            r.start == self.start,
            forall|m: ProductionModel|
                #[trigger] prods_contain(r.productions@, m) <==> (prods_contain(
                    self.productions@,
                    m,
                ) && generating_set(self.productions@).contains(m.left) && all_gen(
                    m.right,
                    generating_set(self.productions@),
                )),
            forall|m: ProductionModel| #[trigger] prods_contain(r.productions@, m)
                ==> prods_contain(self.productions@, m),
            rhs_closed(r.productions@),
            eps_ok(*self) ==> eps_ok(r),
            useless_pass_rel(*self, r),
    {
        let ghost ps = self.productions@;
        let gens = self.compute_generating();
        proof {
            assert(nts_set(gens@) =~= generating_set(ps));
        }
        let mut kept: Vec<Production> = Vec::new();
        let mut i: usize = 0;
        while i < self.productions.len()
            invariant
                i <= self.productions.len(),
                distinct_prods(kept@),
                nts_set(gens@) == generating_set(ps),
                forall|a: Nonterminal| gens@.contains(a) <==> spec_generating(ps, a),
                forall|m: ProductionModel|
                    #[trigger] prods_contain(kept@, m) <==> (prods_contain(ps.take(i as int), m)
                        && generating_set(ps).contains(m.left) && all_gen(
                        m.right,
                        generating_set(ps),
                    )),
            decreases self.productions.len() - i,
        {
            proof {
                assert(forall|k: int| 0 <= k < i + 1 ==> ps.take(i + 1 as int)[k] == ps[k]);
                assert(forall|k: int| 0 <= k < i ==> ps.take(i as int)[k] == ps[k]);
                assert(ps.take(i + 1 as int)[i as int]@ == ps[i as int]@);
                assert(forall|m: ProductionModel| #[trigger] prods_contain(ps.take(i as int), m)
                    ==> prods_contain(ps.take(i + 1 as int), m));
                assert(prods_contain(ps.take(i + 1 as int), ps[i as int]@));
                assert(forall|m: ProductionModel| #[trigger] prods_contain(
                    ps.take(i + 1 as int),
                    m,
                ) ==> (prods_contain(ps.take(i as int), m) || m == ps[i as int]@));
            }
            let rule = &self.productions[i];
            if contains_nt(&gens, rule.left) && rhs_all_gen(&rule.right, &gens) {
                insert_prod(&mut kept, rule.clone());
            }
            i = i + 1;
        }
        proof {
            assert(ps.take(ps.len() as int) =~= ps);
        }
        let result = CFG::new(self.start, kept);
        proof {
            let ghost rp = result.productions@;
            assert forall|m: ProductionModel| #[trigger] prods_contain(rp, m) implies (
            prods_contain(ps, m) && generating_set(ps).contains(m.left) && all_gen(
                m.right,
                generating_set(ps),
            )) by {
                assert(prods_contain(kept@, m) <==> prods_contain(rp, m));
            }
            assert forall|m: ProductionModel|
                (prods_contain(ps, m) && generating_set(ps).contains(m.left) && all_gen(
                    m.right,
                    generating_set(ps),
                )) implies #[trigger] prods_contain(rp, m) by {
                assert(prods_contain(kept@, m) <==> prods_contain(rp, m));
            }
            assert forall|m: ProductionModel, a: Nonterminal|
                #![trigger prods_contain(rp, m), rhs_has_nt(m, a)]
                prods_contain(rp, m) && rhs_has_nt(m, a) implies exists|k: int|
                0 <= k < rp.len() && (#[trigger] rp[k]@).left == a by {
                let p = choose|p: int| 0 <= p < m.right.len() && m.right[p] == Symbol::N(a);
                assert(m.right[p] is N);
                assert(generating_set(ps).contains(a));
                let n = choose|n: nat| gen_iter(ps, n).contains(a);
                assert(n > 0);
                let i1 = choose|i: int|
                    0 <= i < ps.len() && (#[trigger] ps[i]@).left == a && all_gen(
                        ps[i]@.right,
                        gen_iter(ps, (n - 1) as nat),
                    );
                assert forall|k: int| 0 <= k < ps[i1]@.right.len() implies ((
                #[trigger] ps[i1]@.right[k]) is N ==> generating_set(ps).contains(
                    Nonterminal { symbol: ps[i1]@.right[k].spec_symbol() },
                )) by {
                    if ps[i1]@.right[k] is N {
                        assert(gen_iter(ps, (n - 1) as nat).contains(
                            Nonterminal { symbol: ps[i1]@.right[k].spec_symbol() },
                        ));
                        assert(spec_generating(
                            ps,
                            Nonterminal { symbol: ps[i1]@.right[k].spec_symbol() },
                        ));
                    }
                }
                assert(all_gen(ps[i1]@.right, generating_set(ps)));
                assert(spec_generating(ps, a));
                assert(generating_set(ps).contains(ps[i1]@.left));
                assert(prods_contain(ps, ps[i1]@));
                assert(prods_contain(rp, ps[i1]@));
                let kw = choose|k: int| 0 <= k < rp.len() && #[trigger] rp[k]@ == ps[i1]@;
                assert((rp[kw]@).left == a);
            }
            if eps_ok(*self) {
                assert forall|m: ProductionModel| #[trigger] prods_contain(rp, m) && is_eps(
                    m,
                ) implies m.left == result.start && !nt_in_some_rhs(rp, result.start) by {
                    assert(prods_contain(ps, m));
                    assert(!nt_in_some_rhs(rp, result.start)) by {
                        if nt_in_some_rhs(rp, result.start) {
                            let w = choose|ix: int|
                                0 <= ix < rp.len() && rhs_has_nt(#[trigger] rp[ix]@, result.start);
                            assert(prods_contain(rp, rp[w]@));
                            assert(prods_contain(ps, rp[w]@));
                            let iw = choose|ix: int|
                                0 <= ix < ps.len() && #[trigger] ps[ix]@ == rp[w]@;
                            assert(rhs_has_nt(ps[iw]@, self.start));
                            assert(nt_in_some_rhs(ps, self.start));
                        }
                    }
                }
            }
        }
        result
    }

    /// Computes the nonterminals reachable from the start symbol by
    /// fixed-point iteration over the productions of reachable left
    /// symbols.
    #[verifier::loop_isolation(false)]
    #[verifier::rlimit(50)]
    fn compute_reachable(&self) -> (rv: Vec<Nonterminal>)
        requires
            self.wf(),
        ensures
            distinct_nts(rv@),
            forall|a: Nonterminal| rv@.contains(a) <==> spec_reachable(
                self.productions@,
                self.start,
                a,
            ),
    {
        let ghost ps = self.productions@;
        let ghost universe = seq![self.start].add(self.variables@);
        let mut reach: Vec<Nonterminal> = Vec::new();
        proof {
            assert(reach_step(ps, self.start, Set::empty(), self.start));
            assert(reach_iter(ps, self.start, 1).contains(self.start));
            assert(universe[0] == self.start);
            assert(universe.contains(self.start));
            assert(forall|t: int| 0 <= t < self.variables@.len() ==> universe[t + 1]
                == self.variables@[t]);
        }
        insert_nt(&mut reach, self.start);
        proof {
            lemma_distinct_in_universe(reach@, universe);
        }
        let ghost mut gn: nat = 1;
        let mut changed = true;
        while changed
            invariant
                distinct_nts(reach@),
                universe == seq![self.start].add(self.variables@),
                forall|t: int| 0 <= t < reach@.len() ==> universe.contains(#[trigger] reach@[t]),
                reach@.len() <= universe.len(),
                reach@.contains(self.start),
                forall|a: Nonterminal| reach@.contains(a) ==> reach_iter(
                    ps,
                    self.start,
                    gn,
                ).contains(a),
                !changed ==> forall|a: Nonterminal|
                    reach_step(ps, self.start, nts_set(reach@), a) ==> reach@.contains(a),
            decreases universe.len() - reach@.len(), (if changed {
                1int
            } else {
                0int
            }),
        {
            changed = false;
            let ghost pre_len = reach@.len();
            let mut i: usize = 0;
            while i < self.productions.len()
                invariant
                    i <= self.productions.len(),
                    distinct_nts(reach@),
                    pre_len <= reach@.len(),
                    changed == (reach@.len() > pre_len),
                    universe == seq![self.start].add(self.variables@),
                    forall|t: int| 0 <= t < reach@.len() ==> universe.contains(
                        #[trigger] reach@[t],
                    ),
                    reach@.len() <= universe.len(),
                    reach@.contains(self.start),
                    forall|a: Nonterminal| reach@.contains(a) ==> reach_iter(
                        ps,
                        self.start,
                        gn,
                    ).contains(a),
                    !changed ==> forall|j: int, a: Nonterminal|
                        #![trigger rhs_has_nt(ps[j]@, a)]
                        0 <= j < i && reach@.contains(ps[j]@.left) && rhs_has_nt(ps[j]@, a)
                            ==> reach@.contains(a),
                decreases self.productions.len() - i,
            {
                let rule = &self.productions[i];
                if contains_nt(&reach, rule.left) {
                    let mut k: usize = 0;
                    while k < rule.right.len()
                        invariant
                            k <= rule.right.len(),
                            i < self.productions.len(),
                            rule == self.productions@[i as int],
                            distinct_nts(reach@),
                            pre_len <= reach@.len(),
                            changed == (reach@.len() > pre_len),
                            universe == seq![self.start].add(self.variables@),
                            forall|t: int| 0 <= t < reach@.len() ==> universe.contains(
                                #[trigger] reach@[t],
                            ),
                            reach@.len() <= universe.len(),
                            reach@.contains(self.start),
                            reach@.contains(ps[i as int]@.left),
                            forall|a: Nonterminal| reach@.contains(a) ==> reach_iter(
                                ps,
                                self.start,
                                gn,
                            ).contains(a),
                            !changed ==> forall|j: int, a: Nonterminal|
                                #![trigger rhs_has_nt(ps[j]@, a)]
                                0 <= j < i && reach@.contains(ps[j]@.left) && rhs_has_nt(
                                    ps[j]@,
                                    a,
                                ) ==> reach@.contains(a),
                            forall|kx: int|
                                0 <= kx < k ==> ((#[trigger] ps[i as int]@.right[kx]) is N
                                    ==> reach@.contains(
                                    Nonterminal {
                                        symbol: ps[i as int]@.right[kx].spec_symbol(),
                                    },
                                )),
                        decreases rule.right.len() - k,
                    {
                        match rule.right[k] {
                            Symbol::N(a) => {
                                proof {
                                    assert(ps[i as int]@.right[k as int] == Symbol::N(a));
                                    assert(rhs_has_nt(ps[i as int]@, a));
                                    assert(reach_iter(ps, self.start, gn).contains(
                                        (#[trigger] ps[i as int]@).left,
                                    ));
                                    assert(reach_step(
                                        ps,
                                        self.start,
                                        reach_iter(ps, self.start, gn),
                                        a,
                                    ));
                                    lemma_reach_iter_mono(ps, self.start, gn);
                                    assert(reach_iter(ps, self.start, gn + 1).contains(a));
                                    assert(prod_mentions(ps[i as int]@, a));
                                    assert(is_variable_of(ps, a));
                                    assert(self.variables@.contains(a));
                                    let t = choose|t: int|
                                        0 <= t < self.variables@.len() && self.variables@[t] == a;
                                    assert(universe[t + 1] == a);
                                    assert(universe.contains(a));
                                }
                                if insert_nt(&mut reach, a) {
                                    changed = true;
                                }
                                proof {
                                    gn = gn + 1;
                                    lemma_distinct_in_universe(reach@, universe);
                                }
                            },
                            Symbol::T(_) => {},
                        }
                        k = k + 1;
                    }
                }
                i = i + 1;
            }
            proof {
                if !changed {
                    assert forall|a: Nonterminal|
                        reach_step(ps, self.start, nts_set(reach@), a) implies reach@.contains(
                        a,
                    ) by {
                        if a != self.start {
                            let i1 = choose|i: int|
                                0 <= i < ps.len() && nts_set(reach@).contains(
                                    (#[trigger] ps[i]@).left,
                                ) && rhs_has_nt(ps[i]@, a);
                            assert(rhs_has_nt(ps[i1]@, a));
                        }
                    }
                }
            }
        }
        proof {
            assert forall|a: Nonterminal|
                reach@.contains(a) <==> spec_reachable(ps, self.start, a) by {
                if reach@.contains(a) {
                    assert(reach_iter(ps, self.start, gn).contains(a));
                }
                if spec_reachable(ps, self.start, a) {
                    let n = choose|n: nat| reach_iter(ps, self.start, n).contains(a);
                    lemma_reach_iter_closed(ps, self.start, nts_set(reach@), n);
                }
            }
        }
        reach
    }

    /// Removes unreachable productions: only rules whose left symbol is
    /// reachable from the start symbol survive. At the fixed point every
    /// right-hand symbol of such a rule is reachable through the rule
    /// itself, so testing the left symbol decides the whole subset test.
    #[verifier::loop_isolation(false)]
    #[verifier::rlimit(100)]
    pub fn remove_unreachable_rules(&self) -> (r: CFG)
        requires
            self.wf(),
        ensures
            r.wf(),
            r.start == self.start,
            forall|m: ProductionModel|
                #[trigger] prods_contain(r.productions@, m) <==> (prods_contain(
                    self.productions@,
                    m,
                ) && spec_reachable(self.productions@, self.start, m.left)),
            forall|m: ProductionModel| #[trigger] prods_contain(r.productions@, m)
                ==> prods_contain(self.productions@, m),
            forall|m: ProductionModel, a: Nonterminal|
                #![trigger prods_contain(r.productions@, m), rhs_has_nt(m, a)]
                prods_contain(r.productions@, m) && rhs_has_nt(m, a) ==> spec_reachable(
                    self.productions@,
                    self.start,
                    a,
                ),
            rhs_closed(self.productions@) ==> rhs_closed(r.productions@),
            eps_ok(*self) ==> eps_ok(r),
            unreachable_pass_rel(*self, r),
    {
        let ghost ps = self.productions@;
        let reach = self.compute_reachable();
        let mut kept: Vec<Production> = Vec::new();
        let mut i: usize = 0;
        while i < self.productions.len()
            invariant
                i <= self.productions.len(),
                distinct_prods(kept@),
                forall|a: Nonterminal| reach@.contains(a) <==> spec_reachable(ps, self.start, a),
                forall|m: ProductionModel|
                    #[trigger] prods_contain(kept@, m) <==> (prods_contain(ps.take(i as int), m)
                        && spec_reachable(ps, self.start, m.left)),
            decreases self.productions.len() - i,
        {
            proof {
                assert(forall|k: int| 0 <= k < i + 1 ==> ps.take(i + 1 as int)[k] == ps[k]);
                assert(forall|k: int| 0 <= k < i ==> ps.take(i as int)[k] == ps[k]);
                assert(ps.take(i + 1 as int)[i as int]@ == ps[i as int]@);
                assert(forall|m: ProductionModel| #[trigger] prods_contain(ps.take(i as int), m)
                    ==> prods_contain(ps.take(i + 1 as int), m));
                assert(prods_contain(ps.take(i + 1 as int), ps[i as int]@));
                assert(forall|m: ProductionModel| #[trigger] prods_contain(
                    ps.take(i + 1 as int),
                    m,
                ) ==> (prods_contain(ps.take(i as int), m) || m == ps[i as int]@));
            }
            let rule = &self.productions[i];
            if contains_nt(&reach, rule.left) {
                insert_prod(&mut kept, rule.clone());
            }
            i = i + 1;
        }
        proof {
            assert(ps.take(ps.len() as int) =~= ps);
        }
        let result = CFG::new(self.start, kept);
        proof {
            let ghost rp = result.productions@;
            assert forall|m: ProductionModel| #[trigger] prods_contain(rp, m) implies (
            prods_contain(ps, m) && spec_reachable(ps, self.start, m.left)) by {
                assert(prods_contain(kept@, m) <==> prods_contain(rp, m));
            }
            assert forall|m: ProductionModel|
                (prods_contain(ps, m) && spec_reachable(ps, self.start, m.left)) implies
                #[trigger] prods_contain(rp, m) by {
                assert(prods_contain(kept@, m) <==> prods_contain(rp, m));
            }
            assert forall|m: ProductionModel, a: Nonterminal|
                #![trigger prods_contain(rp, m), rhs_has_nt(m, a)]
                prods_contain(rp, m) && rhs_has_nt(m, a) implies spec_reachable(
                ps,
                self.start,
                a,
            ) by {
                let iw = choose|ix: int| 0 <= ix < ps.len() && #[trigger] ps[ix]@ == m;
                let n = choose|n: nat| reach_iter(ps, self.start, n).contains(m.left);
                assert(reach_iter(ps, self.start, n).contains((#[trigger] ps[iw]@).left));
                assert(rhs_has_nt(ps[iw]@, a));
                assert(reach_step(ps, self.start, reach_iter(ps, self.start, n), a));
                assert(reach_iter(ps, self.start, n + 1).contains(a));
            }
            if rhs_closed(ps) {
                assert forall|m: ProductionModel, a: Nonterminal|
                    #![trigger prods_contain(rp, m), rhs_has_nt(m, a)]
                    prods_contain(rp, m) && rhs_has_nt(m, a) implies exists|k: int|
                    0 <= k < rp.len() && (#[trigger] rp[k]@).left == a by {
                    assert(prods_contain(ps, m));
                    let kq = choose|k: int| 0 <= k < ps.len() && (#[trigger] ps[k]@).left == a;
                    assert(spec_reachable(ps, self.start, a));
                    assert(prods_contain(ps, ps[kq]@));
                    assert(prods_contain(rp, ps[kq]@));
                    let kw = choose|k: int| 0 <= k < rp.len() && #[trigger] rp[k]@ == ps[kq]@;
                    assert((rp[kw]@).left == a);
                }
            }
            if eps_ok(*self) {
                assert forall|m: ProductionModel| #[trigger] prods_contain(rp, m) && is_eps(
                    m,
                ) implies m.left == result.start && !nt_in_some_rhs(rp, result.start) by {
                    assert(prods_contain(ps, m));
                    assert(!nt_in_some_rhs(rp, result.start)) by {
                        if nt_in_some_rhs(rp, result.start) {
                            let w = choose|ix: int|
                                0 <= ix < rp.len() && rhs_has_nt(#[trigger] rp[ix]@, result.start);
                            assert(prods_contain(rp, rp[w]@));
                            assert(prods_contain(ps, rp[w]@));
                            let iw = choose|ix: int|
                                0 <= ix < ps.len() && #[trigger] ps[ix]@ == rp[w]@;
                            assert(rhs_has_nt(ps[iw]@, self.start));
                            assert(nt_in_some_rhs(ps, self.start));
                        }
                    }
                }
            }
        }
        result
    }

    /// The whole simplification pipeline, in its fixed, load-bearing
    /// order: epsilon removal, unit removal, useless removal, unreachable
    /// removal, composed as `simplify_rel` states. The result has no unit
    /// production, keeps epsilon at most on a freshly synthesized start
    /// symbol, every surviving rule's symbols are generating and
    /// reachable within the result itself, and every nonterminal in a
    /// surviving right-hand side still has a production of its own.
    #[verifier::loop_isolation(false)]
    #[verifier::rlimit(50)]
    pub fn simplify(&self) -> (r: CFG)
        requires
            self.wf(),
            has_eps_on(self.productions@, self.start) ==> last_free_in(
                alpha_spec(),
                self.variables@,
            ) is Some,
        ensures
            r.wf(),
            simplify_rel(*self, r),
            forall|m: ProductionModel| #[trigger] prods_contain(r.productions@, m) ==> !is_unit(
                m,
            ),
            eps_ok(r),
            rhs_closed(r.productions@),
            forall|m: ProductionModel| #[trigger] prods_contain(r.productions@, m)
                ==> (generating_set(r.productions@).contains(m.left) && all_gen(
                m.right,
                generating_set(r.productions@),
            ) && spec_reachable(r.productions@, r.start, m.left)),
            has_eps_on(r.productions@, r.start) ==> (has_eps_on(self.productions@, self.start)
                && r.start != self.start && !self.variables@.contains(r.start)),
    {
        let g1 = self.remove_epsilon_rules();
        let g2 = g1.remove_unit_rules();
        let g3 = g2.remove_useless_rules();
        let g4 = g3.remove_unreachable_rules();
        proof {
            assert(epsilon_pass_rel(*self, g1));
            assert(unit_pass_rel(g1, g2));
            assert(useless_pass_rel(g2, g3));
            assert(unreachable_pass_rel(g3, g4));
            assert(simplify_rel(*self, g4));
            assert forall|m: ProductionModel| #[trigger] prods_contain(g4.productions@, m) implies
                !is_unit(m) by {
                assert(prods_contain(g3.productions@, m));
                assert(prods_contain(g2.productions@, m));
            }
            lemma_useless_stable_after_unreachable(
                g2.productions@,
                g3.productions@,
                g4.productions@,
                g3.start,
            );
            lemma_unreachable_idempotent(g3.productions@, g4.productions@, g3.start);
            // An epsilon production in the result is the synthesized
            // fresh-start rule: it cannot be a unit import (its target
            // would put the start in a right-hand side), so it descends
            // from the epsilon pass's own start synthesis.
            if has_eps_on(g4.productions@, g4.start) {
                let ghost ps1 = g1.productions@;
                let iw = choose|i: int|
                    0 <= i < g4.productions@.len() && (#[trigger] g4.productions@[i]@).left
                        == g4.start && is_eps(g4.productions@[i]@);
                let mw = g4.productions@[iw]@;
                assert(prods_contain(g4.productions@, mw));
                assert(prods_contain(g3.productions@, mw));
                assert(prods_contain(g2.productions@, mw));
                if is_unit_import(mw, ps1) {
                    let i1 = choose|ix: int|
                        0 <= ix < ps1.len() && #[trigger] unit_import_from(
                            mw,
                            ps1,
                            ix,
                            ps1.len() as int,
                        );
                    let j1 = choose|jx: int|
                        0 <= jx < ps1.len() && !is_unit(#[trigger] ps1[jx]@) && is_unit(ps1[i1]@)
                            && ps1[i1]@.right[0] == Symbol::N(ps1[jx]@.left) && ps1[jx]@.left
                            != ps1[i1]@.left && mw == (ProductionModel {
                            left: ps1[i1]@.left,
                            right: ps1[jx]@.right,
                        });
                    assert(prods_contain(ps1, ps1[j1]@));
                    assert(is_eps(ps1[j1]@));
                    assert(ps1[j1]@.left == g1.start);
                    assert(rhs_has_nt(ps1[i1]@, g1.start));
                    assert(prods_contain(ps1, ps1[i1]@));
                    assert(nt_in_some_rhs(ps1, g1.start));
                    assert(false);
                }
                assert(prods_contain(ps1, mw));
                assert(seq![Symbol::N(self.start)].len() == 1);
                assert(has_eps_on(self.productions@, self.start));
            }
        }
        g4
    }

    /// Parses one rule line, `LHS -> RHS1 | RHS2 | ...`: exactly one
    /// arrow, a one-character nonterminal left side, and one production
    /// per alternative, an empty alternative standing for epsilon.
    #[verifier::loop_isolation(false)]
    pub fn parse_production(line: &str) -> (r: Result<Vec<Production>, GrammarError>)
        ensures
            r matches Ok(ps) ==> ps@.len() >= 1 && !is_terminal_char(ps@[0]@.left.symbol) && (
            forall|k: int| 0 <= k < ps@.len() ==> (#[trigger] ps@[k]@).left == ps@[0]@.left),
            ({
                let s = line@;
                let arrows = arrows_from(s, 0);
                match r {
                    Ok(ps) => arrows.len() == 1 && ({
                        let ap = arrows[0];
                        let llo = trim_lo(s, 0, ap);
                        let lhi = trim_hi(s, llo, ap);
                        &&& lhi == llo + 1
                        &&& !is_terminal_char(s[llo])
                        &&& ps@.map_values(|p: Production| p@) == rule_models(
                            s,
                            ap,
                            Nonterminal { symbol: s[llo] },
                        )
                    }),
                    Err(e) => match e {
                        GrammarError::BadRule(msg) => msg@ == s && (arrows.len() != 1 || ({
                            let ap = arrows[0];
                            trim_hi(s, trim_lo(s, 0, ap), ap) != trim_lo(s, 0, ap) + 1
                        })),
                        GrammarError::TerminalAtLhs(msg) => msg@ == s && arrows.len() == 1 && ({
                            let ap = arrows[0];
                            let llo = trim_lo(s, 0, ap);
                            trim_hi(s, llo, ap) == llo + 1 && is_terminal_char(s[llo])
                        }),
                        GrammarError::NoRule => false,
                    },
                }
            }),
    {
        let ghost s = line@;
        let n = line.unicode_len();
        // Locate the single arrow; arrows are found left to right without
        // overlap, as splitting on "->" does.
        let mut arrow_pos: usize = 0;
        let mut arrow_count: usize = 0;
        let ghost mut gprefix: Seq<int> = Seq::empty();
        let mut i: usize = 0;
        proof {
            assert(gprefix + arrows_from(s, 0) =~= arrows_from(s, 0));
        }
        while i < n
            invariant
                n == line@.len(),
                i <= n + 1,
                arrow_count > 0 ==> arrow_pos + 1 < n,
                arrow_count == (if gprefix.len() >= 2 {
                    2int
                } else {
                    gprefix.len() as int
                }),
                arrows_from(s, 0) == gprefix + arrows_from(s, i as int),
                gprefix.len() >= 1 ==> gprefix[0] == arrow_pos,
            decreases n - i,
        {
            if i + 1 < n && line.get_char(i) == '-' && line.get_char(i + 1) == '>' {
                proof {
                    assert(arrows_from(s, i as int) == seq![i as int] + arrows_from(
                        s,
                        i + 2 as int,
                    ));
                    assert(gprefix + arrows_from(s, i as int) =~= gprefix.push(i as int)
                        + arrows_from(s, i + 2 as int));
                    gprefix = gprefix.push(i as int);
                }
                if arrow_count == 0 {
                    arrow_pos = i;
                    arrow_count = 1;
                } else {
                    arrow_count = 2;
                }
                i = i + 2;
            } else {
                i = i + 1;
            }
        }
        proof {
            assert(arrows_from(s, i as int).len() == 0);
            assert(arrows_from(s, 0) =~= gprefix);
        }
        if arrow_count != 1 {
            return Err(GrammarError::BadRule(line.to_owned()));
        }
        let ghost ap = arrow_pos as int;
        proof {
            assert(arrows_from(s, 0)[0] == ap);
        }
        // The left side, trimmed, must be exactly one character that
        // classifies as a nonterminal.
        let mut lo: usize = 0;
        let mut hi: usize = arrow_pos;
        while lo < hi && char_is_whitespace(line.get_char(lo))
            invariant
                n == line@.len(),
                hi == arrow_pos < n,
                lo <= hi,
                trim_lo(s, 0, ap) == trim_lo(s, lo as int, ap),
            decreases hi - lo,
        {
            lo = lo + 1;
        }
        proof {
            assert(trim_lo(s, 0, ap) == lo);
        }
        while lo < hi && char_is_whitespace(line.get_char(hi - 1))
            invariant
                n == line@.len(),
                hi <= arrow_pos < n,
                lo <= hi,
                lo == trim_lo(s, 0, ap),
                trim_hi(s, lo as int, ap) == trim_hi(s, lo as int, hi as int),
            decreases hi - lo,
        {
            hi = hi - 1;
        }
        proof {
            assert(trim_hi(s, lo as int, ap) == hi);
        }
        if hi != lo + 1 {
            return Err(GrammarError::BadRule(line.to_owned()));
        }
        let left_letter = line.get_char(lo);
        if char_is_lowercase(left_letter) || char_is_numeric(left_letter) {
            return Err(GrammarError::TerminalAtLhs(line.to_owned()));
        }
        let left_nt = Nonterminal::new(left_letter);
        // Each '|'-separated alternative, trimmed, becomes one production.
        let mut productions: Vec<Production> = Vec::new();
        let mut seg_start: usize = arrow_pos + 2;
        let mut j: usize = seg_start;
        let mut done = false;
        proof {
            assert(productions@.map_values(|p: Production| p@) + rule_models(s, ap, left_nt)
                =~= rule_models(s, ap, left_nt));
        }
        while !done
            invariant
                n == line@.len(),
                arrow_pos + 2 <= seg_start,
                ap == arrow_pos,
                seg_start <= j,
                j <= n,
                done ==> productions@.len() >= 1,
                forall|k: int| 0 <= k < productions@.len() ==> (
                #[trigger] productions@[k]@).left == left_nt,
                !is_terminal_char(left_nt.symbol),
                !done ==> productions@.map_values(|p: Production| p@) + split_from(
                    s,
                    '|',
                    seg_start as int,
                    j as int,
                ).map_values(|seg: Seq<char>| alt_model(left_nt, seg)) == rule_models(
                    s,
                    ap,
                    left_nt,
                ),
                done ==> productions@.map_values(|p: Production| p@) == rule_models(
                    s,
                    ap,
                    left_nt,
                ),
            decreases n - j, (if done {
                0int
            } else {
                1int
            }),
        {
            let at_end = j == n;
            let boundary = if at_end {
                true
            } else {
                line.get_char(j) == '|'
            };
            if boundary {
                let ghost seg = s.subrange(seg_start as int, j as int);
                proof {
                    if at_end {
                        assert(split_from(s, '|', seg_start as int, j as int) == seq![seg]);
                    } else {
                        assert(split_from(s, '|', seg_start as int, j as int) == seq![seg]
                            + split_from(s, '|', j + 1 as int, j + 1 as int));
                    }
                    lemma_trim_shift(s, seg_start as int, j as int);
                }
                let mut slo: usize = seg_start;
                let mut shi: usize = j;
                while slo < shi && char_is_whitespace(line.get_char(slo))
                    invariant
                        n == line@.len(),
                        shi == j <= n,
                        seg_start <= slo,
                        slo <= shi,
                        trim_lo(s, seg_start as int, j as int) == trim_lo(
                            s,
                            slo as int,
                            j as int,
                        ),
                    decreases shi - slo,
                {
                    slo = slo + 1;
                }
                proof {
                    assert(trim_lo(s, seg_start as int, j as int) == slo);
                }
                while slo < shi && char_is_whitespace(line.get_char(shi - 1))
                    invariant
                        n == line@.len(),
                        shi <= j <= n,
                        slo <= shi,
                        slo == trim_lo(s, seg_start as int, j as int),
                        trim_hi(s, slo as int, j as int) == trim_hi(
                            s,
                            slo as int,
                            shi as int,
                        ),
                    decreases shi - slo,
                {
                    shi = shi - 1;
                }
                proof {
                    assert(trim_hi(s, slo as int, j as int) == shi);
                    assert(trim_seq(seg) == s.subrange(slo as int, shi as int));
                }
                let mut syms: Vec<Symbol> = Vec::new();
                proof {
                    assert(syms@ =~= classify_seq(s.subrange(slo as int, slo as int)));
                }
                let mut k: usize = slo;
                while k < shi
                    invariant
                        n == line@.len(),
                        slo <= k,
                        k <= shi,
                        shi <= n,
                        syms@ == classify_seq(s.subrange(slo as int, k as int)),
                    decreases shi - k,
                {
                    syms.push(Symbol::new(line.get_char(k)));
                    proof {
                        assert(syms@ =~= classify_seq(s.subrange(slo as int, k + 1 as int)));
                    }
                    k = k + 1;
                }
                let new_p = Production::new(left_nt, syms);
                proof {
                    assert(new_p@ == alt_model(left_nt, seg));
                }
                let ghost prods_snap = productions@;
                productions.push(new_p);
                proof {
                    assert(productions@.map_values(|p: Production| p@) =~= prods_snap.map_values(
                        |p: Production| p@,
                    ).push(new_p@));
                    if at_end {
                        assert(split_from(s, '|', seg_start as int, j as int).map_values(
                            |sg: Seq<char>| alt_model(left_nt, sg),
                        ) =~= seq![alt_model(left_nt, seg)]);
                        assert(productions@.map_values(|p: Production| p@) =~= rule_models(
                            s,
                            ap,
                            left_nt,
                        ));
                    } else {
                        assert(split_from(s, '|', seg_start as int, j as int).map_values(
                            |sg: Seq<char>| alt_model(left_nt, sg),
                        ) =~= seq![alt_model(left_nt, seg)] + split_from(
                            s,
                            '|',
                            j + 1 as int,
                            j + 1 as int,
                        ).map_values(|sg: Seq<char>| alt_model(left_nt, sg)));
                        assert(productions@.map_values(|p: Production| p@) + split_from(
                            s,
                            '|',
                            j + 1 as int,
                            j + 1 as int,
                        ).map_values(|sg: Seq<char>| alt_model(left_nt, sg)) =~= rule_models(
                            s,
                            ap,
                            left_nt,
                        ));
                    }
                }
                if !at_end {
                    seg_start = j + 1;
                }
            } else {
                proof {
                    assert(split_from(s, '|', seg_start as int, j as int) == split_from(
                        s,
                        '|',
                        seg_start as int,
                        j + 1 as int,
                    ));
                }
            }
            if at_end {
                done = true;
            } else {
                j = j + 1;
            }
        }
        Ok(productions)
    }

    /// Parses a whole grammar text: one rule per line, blank lines and
    /// lines starting with `#` ignored; the first valid rule's left
    /// symbol becomes the start symbol. Reading the text from a file or
    /// another source is the caller's business.
    #[verifier::loop_isolation(false)]
    #[verifier::rlimit(100)]
    pub fn parse_from_reader(input: &str) -> (r: Result<CFG, GrammarError>)
        ensures
            r matches Ok(g) ==> g.wf(),
            ({
                let sv = input@;
                let lines = split_from(sv, '\n', 0, 0);
                match r {
                    Ok(g) => {
                        &&& forall|k: int|
                            0 <= k < lines.len() && line_relevant(#[trigger] lines[k])
                                ==> line_models(lines[k]) is Some
                        &&& exists|k0: int|
                            0 <= k0 < lines.len() && line_relevant(#[trigger] lines[k0]) && (
                            forall|k: int|
                                0 <= k < k0 ==> !line_relevant(#[trigger] lines[k])) && g.start
                                == line_models(lines[k0]).unwrap()[0].left
                        &&& forall|m: ProductionModel|
                            #[trigger] prods_contain(g.productions@, m) <==> exists|k: int|
                                0 <= k < lines.len() && line_relevant(#[trigger] lines[k])
                                    && line_models(lines[k]).unwrap().contains(m)
                    },
                    Err(e) => match e {
                        GrammarError::NoRule => forall|k: int|
                            0 <= k < lines.len() ==> !line_relevant(#[trigger] lines[k]),
                        GrammarError::BadRule(msg) => exists|k: int|
                            0 <= k < lines.len() && line_relevant(#[trigger] lines[k])
                                && line_models(lines[k]) is None && msg@ == trim_seq(lines[k])
                                && (forall|k2: int|
                                0 <= k2 < k && line_relevant(#[trigger] lines[k2])
                                    ==> line_models(lines[k2]) is Some),
                        GrammarError::TerminalAtLhs(msg) => exists|k: int|
                            0 <= k < lines.len() && line_relevant(#[trigger] lines[k])
                                && line_models(lines[k]) is None && msg@ == trim_seq(lines[k])
                                && (forall|k2: int|
                                0 <= k2 < k && line_relevant(#[trigger] lines[k2])
                                    ==> line_models(lines[k2]) is Some),
                    },
                }
            }),
    {
        let ghost sv = input@;
        let n = input.unicode_len();
        let mut start: Option<Nonterminal> = None;
        let mut productions: Vec<Production> = Vec::new();
        let mut line_start: usize = 0;
        let mut i: usize = 0;
        let mut done = false;
        let ghost mut lines_done: Seq<Seq<char>> = Seq::empty();
        proof {
            assert(lines_done + split_from(sv, '\n', 0, 0) =~= split_from(sv, '\n', 0, 0));
        }
        while !done
            invariant
                n == input@.len(),
                line_start <= i,
                i <= n,
                distinct_prods(productions@),
                !done ==> lines_done + split_from(sv, '\n', line_start as int, i as int)
                    == split_from(sv, '\n', 0, 0),
                done ==> lines_done == split_from(sv, '\n', 0, 0),
                forall|k: int|
                    0 <= k < lines_done.len() && line_relevant(#[trigger] lines_done[k])
                        ==> line_models(lines_done[k]) is Some,
                forall|m: ProductionModel|
                    #[trigger] prods_contain(productions@, m) <==> exists|k: int|
                        0 <= k < lines_done.len() && line_relevant(#[trigger] lines_done[k])
                            && line_models(lines_done[k]).unwrap().contains(m),
                (start is None) <==> (forall|k: int|
                    0 <= k < lines_done.len() ==> !line_relevant(#[trigger] lines_done[k])),
                (start is None) <==> productions@.len() == 0,
                start matches Some(st) ==> exists|k0: int|
                    0 <= k0 < lines_done.len() && line_relevant(#[trigger] lines_done[k0]) && (
                    forall|k: int| 0 <= k < k0 ==> !line_relevant(#[trigger] lines_done[k]))
                        && st == line_models(lines_done[k0]).unwrap()[0].left,
            decreases n - i, (if done {
                0int
            } else {
                1int
            }),
        {
            let at_end = i == n;
            let boundary = if at_end {
                true
            } else {
                input.get_char(i) == '\n'
            };
            if boundary {
                let ghost seg = sv.subrange(line_start as int, i as int);
                proof {
                    if at_end {
                        assert(split_from(sv, '\n', line_start as int, i as int) == seq![seg]);
                    } else {
                        assert(split_from(sv, '\n', line_start as int, i as int) == seq![seg]
                            + split_from(sv, '\n', i + 1 as int, i + 1 as int));
                    }
                    lemma_trim_shift(sv, line_start as int, i as int);
                }
                let mut lo: usize = line_start;
                let mut hi: usize = i;
                while lo < hi && char_is_whitespace(input.get_char(lo))
                    invariant
                        n == input@.len(),
                        hi == i <= n,
                        line_start <= lo,
                        lo <= hi,
                        trim_lo(sv, line_start as int, i as int) == trim_lo(
                            sv,
                            lo as int,
                            i as int,
                        ),
                    decreases hi - lo,
                {
                    lo = lo + 1;
                }
                proof {
                    assert(trim_lo(sv, line_start as int, i as int) == lo);
                }
                while lo < hi && char_is_whitespace(input.get_char(hi - 1))
                    invariant
                        n == input@.len(),
                        hi <= i <= n,
                        lo <= hi,
                        lo == trim_lo(sv, line_start as int, i as int),
                        trim_hi(sv, lo as int, i as int) == trim_hi(sv, lo as int, hi as int),
                    decreases hi - lo,
                {
                    hi = hi - 1;
                }
                proof {
                    assert(trim_hi(sv, lo as int, i as int) == hi);
                    assert(trim_seq(seg) == sv.subrange(lo as int, hi as int));
                }
                let ghost prev_done = lines_done;
                proof {
                    lines_done = lines_done.push(seg);
                    assert(forall|k: int| 0 <= k < prev_done.len() ==> lines_done[k]
                        == prev_done[k]);
                    assert(lines_done[lines_done.len() - 1] == seg);
                }
                if lo < hi && input.get_char(lo) != '#' {
                    proof {
                        assert(trim_seq(seg)[0] == sv[lo as int]);
                        assert(line_relevant(seg));
                    }
                    let line = input.substring_char(lo, hi);
                    proof {
                        assert(line@ == trim_seq(seg));
                    }
                    match CFG::parse_production(line) {
                        Ok(ps) => {
                            proof {
                                assert(line_models(seg) == Some(
                                    ps@.map_values(|p: Production| p@),
                                ));
                            }
                            if productions.len() == 0 {
                                start = Some(ps[0].left);
                                proof {
                                    assert(ps@.map_values(|p: Production| p@)[0] == ps@[0]@);
                                    assert(line_models(seg).unwrap()[0].left == ps@[0]@.left);
                                    assert forall|k: int| 0 <= k < prev_done.len() implies
                                        !line_relevant(#[trigger] prev_done[k]) by {}
                                }
                            }
                            let ghost models = ps@.map_values(|p: Production| p@);
                            let ghost pre_len = productions@.len();
                            let mut t: usize = 0;
                            while t < ps.len()
                                invariant
                                    t <= ps@.len(),
                                    start is Some,
                                    models == ps@.map_values(|p: Production| p@),
                                    distinct_prods(productions@),
                                    productions@.len() >= pre_len,
                                    t >= 1 ==> productions@.len() >= 1,
                                    forall|m: ProductionModel|
                                        #[trigger] prods_contain(productions@, m) <==> (exists|
                                            k: int,
                                        |
                                            0 <= k < prev_done.len() && line_relevant(
                                                #[trigger] prev_done[k],
                                            ) && line_models(prev_done[k]).unwrap().contains(m))
                                            || models.take(t as int).contains(m),
                                decreases ps@.len() - t,
                            {
                                proof {
                                    assert(models.take(t + 1 as int) =~= models.take(
                                        t as int,
                                    ).push(models[t as int]));
                                    assert(models[t as int] == ps@[t as int]@);
                                    assert forall|m: ProductionModel|
                                        models.take(t + 1 as int).contains(m) implies (
                                    models.take(t as int).contains(m) || m == models[
                                    t as int]) by {
                                        let x = choose|x: int|
                                            0 <= x < models.take(t + 1 as int).len() && (
                                            #[trigger] models.take(t + 1 as int)[x]) == m;
                                        if x < t {
                                            assert(models.take(t as int)[x] == m);
                                        }
                                    }
                                    assert forall|m: ProductionModel|
                                        (models.take(t as int).contains(m) || m == models[
                                        t as int]) implies models.take(t + 1 as int).contains(
                                        m,
                                    ) by {
                                        if models.take(t as int).contains(m) {
                                            let x = choose|x: int|
                                                0 <= x < models.take(t as int).len() && (
                                                #[trigger] models.take(t as int)[x]) == m;
                                            assert(models.take(t + 1 as int)[x] == m);
                                        } else {
                                            assert(models.take(t + 1 as int)[t as int] == m);
                                        }
                                    }
                                }
                                insert_prod(&mut productions, ps[t].clone());
                                t = t + 1;
                            }
                            proof {
                                assert(models.take(ps@.len() as int) =~= models);
                            }
                        },
                        Err(e) => {
                            proof {
                                assert(line_models(seg) is None);
                                let lines = split_from(sv, '\n', 0, 0);
                                let kx = prev_done.len() as int;
                                assert(lines[kx] == seg);
                                assert(forall|k2: int| 0 <= k2 < kx ==> lines[k2]
                                    == prev_done[k2]);
                                assert(line_relevant(lines[kx]));
                                assert(forall|k2: int|
                                    0 <= k2 < kx && line_relevant(#[trigger] lines[k2])
                                        ==> line_models(lines[k2]) is Some);
                            }
                            return Err(e);
                        },
                    }
                } else {
                    proof {
                        if lo < hi {
                            assert(trim_seq(seg)[0] == sv[lo as int]);
                        }
                        assert(!line_relevant(seg));
                    }
                }
                if !at_end {
                    line_start = i + 1;
                }
            } else {
                proof {
                    assert(split_from(sv, '\n', line_start as int, i as int) == split_from(
                        sv,
                        '\n',
                        line_start as int,
                        i + 1 as int,
                    ));
                }
            }
            if at_end {
                done = true;
            } else {
                i = i + 1;
            }
        }
        match start {
            Some(st) => {
                let g = CFG::new(st, productions);
                proof {
                    let lines = split_from(sv, '\n', 0, 0);
                    assert forall|m: ProductionModel| #[trigger] prods_contain(
                        g.productions@,
                        m,
                    ) implies exists|k: int|
                        0 <= k < lines.len() && line_relevant(#[trigger] lines[k])
                            && line_models(lines[k]).unwrap().contains(m) by {
                        assert(prods_contain(productions@, m));
                    }
                    assert forall|m: ProductionModel|
                        (exists|k: int|
                            0 <= k < lines.len() && line_relevant(#[trigger] lines[k])
                                && line_models(lines[k]).unwrap().contains(m)) implies #[trigger]
                    prods_contain(g.productions@, m) by {
                        assert(prods_contain(productions@, m) <==> prods_contain(
                            g.productions@,
                            m,
                        ));
                    }
                }
                Ok(g)
            },
            None => Err(GrammarError::NoRule),
        }
    }

    /// The canonical textual form: the start symbol's line first, the
    /// other left symbols' lines in ascending character order; within a
    /// line the alternatives are lexicographically sorted and joined with
    /// `" | "`, each alternative being its symbols' characters run
    /// together. A grammar with no rules at all renders as the start
    /// symbol followed by a bare arrow.
    #[verifier::loop_isolation(false)]
    #[verifier::rlimit(100)]
    pub fn to_canonical_string(&self) -> (r: String)
        ensures
            r@ == canonical_output(*self),
    {
        let ghost ps = self.productions@;
        let mut lefts: Vec<Nonterminal> = Vec::new();
        let mut i: usize = 0;
        while i < self.productions.len()
            invariant
                i <= self.productions.len(),
                distinct_nts(lefts@),
                lefts@ == lefts_upto(ps, i as int),
                forall|t: int| 0 <= t < lefts@.len() ==> exists|j: int|
                    0 <= j < ps.len() && (#[trigger] ps[j]@).left == (#[trigger] lefts@[t]),
            decreases self.productions.len() - i,
        {
            proof {
                assert((#[trigger] ps[i as int]@).left == self.productions[i as int].left);
            }
            insert_nt(&mut lefts, self.productions[i].left);
            i = i + 1;
        }
        let ghost all_lefts = lefts@;
        // Ascending order of the left symbols' characters.
        let mut sorted: Vec<Nonterminal> = Vec::new();
        proof {
            assert(sorted@ + sort_nts(lefts@) =~= sort_nts(all_lefts));
        }
        while lefts.len() > 0
            invariant
                sorted@ + sort_nts(lefts@) == sort_nts(all_lefts),
                sorted@.len() + lefts@.len() == all_lefts.len(),
                forall|t: int| 0 <= t < lefts@.len() ==> exists|j: int|
                    0 <= j < ps.len() && (#[trigger] ps[j]@).left == (#[trigger] lefts@[t]),
                forall|t: int| 0 <= t < sorted@.len() ==> exists|j: int|
                    0 <= j < ps.len() && (#[trigger] ps[j]@).left == (#[trigger] sorted@[t]),
            decreases lefts@.len(),
        {
            let mut best: usize = 0;
            let mut j: usize = 1;
            proof {
                assert(lefts@.take(1).drop_last() =~= lefts@.take(0));
            }
            while j < lefts.len()
                invariant
                    best < lefts@.len(),
                    best < j,
                    1 <= j <= lefts@.len(),
                    best == nt_min_idx(lefts@.take(j as int)),
                decreases lefts@.len() - j,
            {
                proof {
                    assert(lefts@.take(j + 1 as int).drop_last() =~= lefts@.take(j as int));
                    assert(lefts@.take(j + 1 as int).last() == lefts@[j as int]);
                    assert(lefts@.take(j + 1 as int)[best as int] == lefts@[best as int]);
                }
                if (lefts[j].symbol as u32) < (lefts[best].symbol as u32) {
                    best = j;
                }
                j = j + 1;
            }
            proof {
                assert(lefts@.take(lefts@.len() as int) =~= lefts@);
                assert(best == nt_min_idx(lefts@));
            }
            let ghost lefts_snap = lefts@;
            let nt = lefts.remove(best);
            let ghost sorted_snap = sorted@;
            sorted.push(nt);
            proof {
                assert(sort_nts(lefts_snap) == seq![lefts_snap[nt_min_idx(lefts_snap)]]
                    + sort_nts(lefts_snap.remove(nt_min_idx(lefts_snap))));
                assert(sorted@ =~= sorted_snap.push(nt));
                assert(sorted@ + sort_nts(lefts@) =~= sorted_snap + sort_nts(lefts_snap));
                assert(forall|t: int| 0 <= t < best ==> lefts@[t] == lefts_snap[t]);
                assert(forall|t: int| best <= t < lefts@.len() ==> lefts@[t] == lefts_snap[
                    t + 1
                ]);
            }
        }
        proof {
            assert(sorted@ == sort_nts(all_lefts));
        }
        let mut out = String::new();
        let started = self.render_line(&mut out, self.start);
        proof {
            assert(out@ =~= (if alt_words(ps, self.start).len() > 0 {
                canonical_line(ps, self.start)
            } else {
                Seq::<char>::empty()
            }));
        }
        if !started && sorted.len() == 0 {
            proof {
                assert(all_lefts.len() == 0);
            }
            let mut head: Vec<char> = Vec::new();
            head.push(self.start.symbol);
            proof {
                assert(head@ =~= seq![self.start.symbol]);
            }
            let head_str = chars_to_string(&head);
            out.append(head_str.as_str());
            out.append(" -> ");
            proof {
                assert(out@ =~= canonical_output(*self));
            }
            return out;
        }
        proof {
            if all_lefts.len() == 0 {
                assert(sorted@.len() == 0);
                assert(alt_words(ps, self.start).len() == 0) by {
                    if alt_words(ps, self.start).len() > 0 {
                        lemma_alt_words_to_left(ps, self.start);
                        let j = choose|j: int|
                            0 <= j < ps.len() && (#[trigger] ps[j]@).left == self.start;
                        lemma_lefts_upto_contains(ps, ps.len() as int, j);
                    }
                }
                assert(!started);
                assert(false);
            }
            assert(sorted@.skip(0) =~= sorted@);
            assert(out@ + canonical_rest(ps, sorted@.skip(0), self.start) == canonical_output(
                *self,
            ));
        }
        let mut k: usize = 0;
        while k < sorted.len()
            invariant
                k <= sorted@.len(),
                out@ + canonical_rest(ps, sorted@.skip(k as int), self.start)
                    == canonical_output(*self),
            decreases sorted@.len() - k,
        {
            proof {
                assert(sorted@.skip(k as int)[0] == sorted@[k as int]);
                assert(sorted@.skip(k as int).drop_first() =~= sorted@.skip(k + 1 as int));
            }
            if sorted[k] != self.start {
                proof {
                    let t = k as int;
                    let jw = choose|j: int|
                        0 <= j < ps.len() && (#[trigger] ps[j]@).left == sorted@[t];
                    lemma_alt_words_present(ps, sorted@[t]);
                }
                self.render_line(&mut out, sorted[k]);
            }
            k = k + 1;
        }
        proof {
            assert(sorted@.skip(sorted@.len() as int) =~= Seq::<Nonterminal>::empty());
            assert(out@ =~= canonical_output(*self));
        }
        out
    }

    /// Appends the canonical line of one left symbol, reporting whether
    /// the symbol had any alternatives to render.
    #[verifier::loop_isolation(false)]
    #[verifier::rlimit(100)]
    fn render_line(&self, out: &mut String, left: Nonterminal) -> (had: bool)
        ensures
            had == (alt_words(self.productions@, left).len() > 0),
            had ==> final(out)@ == old(out)@ + canonical_line(self.productions@, left),
            !had ==> final(out)@ == old(out)@,
    {
        let ghost ps = self.productions@;
        let mut alts: Vec<Vec<char>> = Vec::new();
        proof {
            assert(ps.skip(0) =~= ps);
            assert(alts@.map_values(|v: Vec<char>| v@) + alt_words(ps, left) =~= alt_words(
                ps,
                left,
            ));
        }
        let mut i: usize = 0;
        while i < self.productions.len()
            invariant
                i <= self.productions.len(),
                alts@.map_values(|v: Vec<char>| v@) + alt_words(ps.skip(i as int), left)
                    == alt_words(ps, left),
            decreases self.productions.len() - i,
        {
            proof {
                assert(ps.skip(i as int)[0] == ps[i as int]);
                assert(ps.skip(i as int).drop_first() =~= ps.skip(i + 1 as int));
            }
            let rule = &self.productions[i];
            if rule.left == left {
                let mut word: Vec<char> = Vec::new();
                proof {
                    assert(word@ =~= rhs_chars(rule.right@).take(0));
                }
                let mut k: usize = 0;
                while k < rule.right.len()
                    invariant
                        k <= rule.right@.len(),
                        word@ == rhs_chars(rule.right@).take(k as int),
                    decreases rule.right.len() - k,
                {
                    word.push(rule.right[k].get_symbol());
                    proof {
                        assert(word@ =~= rhs_chars(rule.right@).take(k + 1 as int));
                    }
                    k = k + 1;
                }
                proof {
                    assert(word@ =~= rhs_chars(ps[i as int]@.right));
                }
                let ghost alts_snap = alts@;
                alts.push(word);
                proof {
                    assert(alts@.map_values(|v: Vec<char>| v@) =~= alts_snap.map_values(
                        |v: Vec<char>| v@,
                    ).push(word@));
                    assert(alts_snap.map_values(|v: Vec<char>| v@).push(word@) + alt_words(
                        ps.skip(i + 1 as int),
                        left,
                    ) =~= alts_snap.map_values(|v: Vec<char>| v@) + (seq![rhs_chars(
                        ps[i as int]@.right,
                    )] + alt_words(ps.skip(i + 1 as int), left)));
                }
            }
            i = i + 1;
        }
        proof {
            assert(ps.skip(ps.len() as int) =~= Seq::<Production>::empty());
            assert(alts@.map_values(|v: Vec<char>| v@) + alt_words(
                Seq::<Production>::empty(),
                left,
            ) =~= alts@.map_values(|v: Vec<char>| v@));
            assert(alts@.map_values(|v: Vec<char>| v@) == alt_words(ps, left));
        }
        if alts.len() == 0 {
            return false;
        }
        let ghost all_words = alts@.map_values(|v: Vec<char>| v@);
        // Lexicographic order of the alternatives.
        let mut sorted: Vec<String> = Vec::new();
        proof {
            assert(sorted@.map_values(|st: String| st@) + sort_lex(
                alts@.map_values(|v: Vec<char>| v@),
            ) =~= sort_lex(all_words));
        }
        while alts.len() > 0
            invariant
                sorted@.map_values(|st: String| st@) + sort_lex(
                    alts@.map_values(|v: Vec<char>| v@),
                ) == sort_lex(all_words),
            decreases alts@.len(),
        {
            let ghost cur = alts@.map_values(|v: Vec<char>| v@);
            let mut best: usize = 0;
            let mut j: usize = 1;
            proof {
                assert(cur.take(1).drop_last() =~= cur.take(0));
            }
            while j < alts.len()
                invariant
                    best < alts@.len(),
                    best < j,
                    1 <= j <= alts@.len(),
                    cur == alts@.map_values(|v: Vec<char>| v@),
                    best == lex_min_idx(cur.take(j as int)),
                decreases alts@.len() - j,
            {
                proof {
                    assert(cur.take(j + 1 as int).drop_last() =~= cur.take(j as int));
                    assert(cur.take(j + 1 as int).last() == cur[j as int]);
                    assert(cur.take(j + 1 as int)[best as int] == cur[best as int]);
                    assert(cur[j as int] == alts@[j as int]@);
                    assert(cur[best as int] == alts@[best as int]@);
                }
                if lex_le_exec(&alts[j], &alts[best]) && !lex_le_exec(&alts[best], &alts[j]) {
                    best = j;
                }
                j = j + 1;
            }
            proof {
                assert(cur.take(cur.len() as int) =~= cur);
                assert(best == lex_min_idx(cur));
                lemma_lex_min_idx_bounds(cur);
            }
            let word = alts.remove(best);
            let ghost sorted_snap = sorted@;
            sorted.push(chars_to_string(&word));
            proof {
                assert(sort_lex(cur) == seq![cur[lex_min_idx(cur)]] + sort_lex(
                    cur.remove(lex_min_idx(cur)),
                ));
                assert(word@ == cur[best as int]);
                assert(alts@.map_values(|v: Vec<char>| v@) =~= cur.remove(best as int));
                assert(sorted@.map_values(|st: String| st@) =~= sorted_snap.map_values(
                    |st: String| st@,
                ).push(word@));
                assert(sorted@.map_values(|st: String| st@) + sort_lex(
                    alts@.map_values(|v: Vec<char>| v@),
                ) =~= sorted_snap.map_values(|st: String| st@) + sort_lex(cur));
            }
        }
        proof {
            assert(alts@.map_values(|v: Vec<char>| v@) =~= Seq::<Seq<char>>::empty());
            assert(sorted@.map_values(|st: String| st@) == sort_lex(all_words));
        }
        let body = join_parts(&sorted, " | ");
        let mut head: Vec<char> = Vec::new();
        head.push(left.symbol);
        proof {
            assert(head@ =~= seq![left.symbol]);
        }
        let head_str = chars_to_string(&head);
        out.append(head_str.as_str());
        out.append(" -> ");
        out.append(body.as_str());
        out.append("\n");
        proof {
            assert(out@ =~= old(out)@ + canonical_line(ps, left));
            assert(alt_words(ps, left).len() > 0);
        }
        true
    }

    /// Whether the start symbol literally carries an epsilon production;
    /// callers outside the verified world use it, together with
    /// `has_free_pool_symbol`, to test the fresh-symbol precondition of
    /// the epsilon pass before running the pipeline.
    #[verifier::loop_isolation(false)]
    pub fn has_epsilon_on_start(&self) -> (r: bool)
        ensures
            r == has_eps_on(self.productions@, self.start),
    {
        let ghost ps = self.productions@;
        let mut i: usize = 0;
        while i < self.productions.len()
            invariant
                i <= self.productions.len(),
                forall|j: int|
                    0 <= j < i ==> !((#[trigger] ps[j]@).left == self.start && is_eps(ps[j]@)),
            decreases self.productions.len() - i,
        {
            let rule = &self.productions[i];
            if rule.right.len() == 0 && rule.left == self.start {
                proof {
                    assert((#[trigger] ps[i as int]@).left == self.start && is_eps(
                        ps[i as int]@,
                    ));
                }
                return true;
            }
            i = i + 1;
        }
        false
    }

    /// Whether the fixed pool still holds a symbol that is not yet a
    /// variable of this grammar: exactly the condition under which a
    /// fresh start symbol can be synthesized.
    #[verifier::loop_isolation(false)]
    pub fn has_free_pool_symbol(&self) -> (r: bool)
        ensures
            r == (last_free_in(alpha_spec(), self.variables@) is Some),
    {
        let alpha = alpha_str();
        let mut i: usize = alpha.unicode_len();
        proof {
            assert(alpha_spec().take(alpha_spec().len() as int) =~= alpha_spec());
        }
        while i > 0
            invariant
                alpha@ == alpha_spec(),
                i <= alpha_spec().len(),
                last_free_in(alpha_spec().take(i as int), self.variables@) == last_free_in(
                    alpha_spec(),
                    self.variables@,
                ),
            decreases i,
        {
            let c = alpha.get_char(i - 1);
            let cand = Nonterminal::new(c);
            proof {
                assert(alpha_spec().take(i as int).last() == c);
                assert(alpha_spec().take(i as int).drop_last() =~= alpha_spec().take(i - 1));
            }
            if !contains_nt(&self.variables, cand) {
                return true;
            }
            i = i - 1;
        }
        proof {
            assert(alpha_spec().take(0) =~= Seq::<char>::empty());
        }
        false
    }
}

/// Decides whether every right-hand symbol is a nonterminal already listed
/// as nullable.
fn rhs_all_nullable(right: &Vec<Symbol>, ns: &Vec<Nonterminal>) -> (r: bool)
    ensures
        r == all_nullable(right@, nts_set(ns@)),
{
    let mut k: usize = 0;
    while k < right.len()
        invariant
            k <= right.len(),
            forall|t: int|
                0 <= t < k ==> #[trigger] right@[t] is N && nts_set(ns@).contains(
                    Nonterminal { symbol: right@[t].spec_symbol() },
                ),
        decreases right.len() - k,
    {
        match right[k] {
            Symbol::N(nn) => {
                if !contains_nt(ns, nn) {
                    return false;
                }
            },
            Symbol::T(_) => {
                return false;
            },
        }
        k = k + 1;
    }
    true
}

pub uninterp spec fn is_space_char(c: char) -> bool;

/// Relies on char::is_whitespace: whether the character has the Unicode
/// White_Space property; a pure function of the character alone.
#[verifier::external_body]
fn char_is_whitespace(c: char) -> (r: bool)
    ensures
        r == is_space_char(c),
{
    c.is_whitespace()
}

/// Relies on String's FromIterator over characters: the string holding
/// exactly these characters in order.
#[verifier::external_body]
pub(crate) fn chars_to_string(v: &Vec<char>) -> (r: String)
    ensures
        r@ == v@,
{
    v.iter().collect()
}

/// The parts concatenated with the separator between consecutive parts.
pub open spec fn seq_join(parts: Seq<Seq<char>>, sep: Seq<char>) -> Seq<char>
    decreases parts.len(),
{
    if parts.len() == 0 {
        Seq::empty()
    } else if parts.len() == 1 {
        parts[0]
    } else {
        parts[0] + sep + seq_join(parts.drop_first(), sep)
    }
}

/// Relies on itertools::join: each part written out (a String displays as
/// itself), with the separator between consecutive parts.
#[verifier::external_body]
fn join_parts(parts: &Vec<String>, sep: &str) -> (r: String)
    ensures
        r@ == seq_join(parts@.map_values(|s: String| s@), sep@),
{
    itertools::join(parts.iter(), sep)
}

/// The characters of a sequence, each classified as a grammar symbol.
pub open spec fn classify_seq(cs: Seq<char>) -> Seq<Symbol> {
    cs.map_values(|c: char| classify(c))
}

/// The positions where a left-to-right, non-overlapping scan finds the
/// two-character arrow `->`, from position `i` on.
pub open spec fn arrows_from(s: Seq<char>, i: int) -> Seq<int>
    decreases s.len() - i,
{
    if 0 <= i && i + 1 < s.len() && s[i] == '-' && s[i + 1] == '>' {
        seq![i] + arrows_from(s, i + 2)
    } else if 0 <= i && i < s.len() {
        arrows_from(s, i + 1)
    } else {
        Seq::empty()
    }
}

/// The spans of `s` from `start` on, split at every occurrence of `sep`
/// found scanning from `i`; splitting always yields at least one span.
pub open spec fn split_from(s: Seq<char>, sep: char, start: int, i: int) -> Seq<Seq<char>>
    decreases s.len() - i,
{
    if 0 <= i && i < s.len() {
        if s[i] == sep {
            seq![s.subrange(start, i)] + split_from(s, sep, i + 1, i + 1)
        } else {
            split_from(s, sep, start, i + 1)
        }
    } else {
        seq![s.subrange(start, s.len() as int)]
    }
}

/// The first position at or after `lo` whose character is not whitespace
/// (or `hi` when all of the span is whitespace).
pub open spec fn trim_lo(s: Seq<char>, lo: int, hi: int) -> int
    decreases hi - lo,
{
    if lo < hi && is_space_char(s[lo]) {
        trim_lo(s, lo + 1, hi)
    } else {
        lo
    }
}

/// The position after the last non-whitespace character before `hi` (or
/// `lo` when all of the span is whitespace).
pub open spec fn trim_hi(s: Seq<char>, lo: int, hi: int) -> int
    decreases hi - lo,
{
    if lo < hi && is_space_char(s[hi - 1]) {
        trim_hi(s, lo, hi - 1)
    } else {
        hi
    }
}

/// A sequence with its leading and trailing whitespace removed.
pub open spec fn trim_seq(cs: Seq<char>) -> Seq<char> {
    cs.subrange(
        trim_lo(cs, 0, cs.len() as int),
        trim_hi(cs, trim_lo(cs, 0, cs.len() as int), cs.len() as int),
    )
}

proof fn lemma_trim_lo_bounds(s: Seq<char>, lo: int, hi: int)
    requires
        lo <= hi,
    ensures
        lo <= trim_lo(s, lo, hi) <= hi,
    decreases hi - lo,
{
    if lo < hi && is_space_char(s[lo]) {
        lemma_trim_lo_bounds(s, lo + 1, hi);
    }
}

proof fn lemma_trim_hi_bounds(s: Seq<char>, lo: int, hi: int)
    requires
        lo <= hi,
    ensures
        lo <= trim_hi(s, lo, hi) <= hi,
    decreases hi - lo,
{
    if lo < hi && is_space_char(s[hi - 1]) {
        lemma_trim_hi_bounds(s, lo, hi - 1);
    }
}

proof fn lemma_trim_lo_shift(s: Seq<char>, a: int, b: int, lo: int)
    requires
        0 <= a <= lo <= b <= s.len(),
    ensures
        trim_lo(s.subrange(a, b), lo - a, b - a) == trim_lo(s, lo, b) - a,
    decreases b - lo,
{
    if lo < b && is_space_char(s[lo]) {
        lemma_trim_lo_shift(s, a, b, lo + 1);
    }
}

proof fn lemma_trim_hi_shift(s: Seq<char>, a: int, b: int, lo: int, hi: int)
    requires
        0 <= a <= lo <= hi <= b <= s.len(),
    ensures
        trim_hi(s.subrange(a, b), lo - a, hi - a) == trim_hi(s, lo, hi) - a,
    decreases hi - lo,
{
    if lo < hi && is_space_char(s[hi - 1]) {
        lemma_trim_hi_shift(s, a, b, lo, hi - 1);
    }
}

/// Trimming a span of `s` in place gives the same characters as cutting
/// the span out and trimming it as a sequence of its own.
proof fn lemma_trim_shift(s: Seq<char>, a: int, b: int)
    requires
        0 <= a <= b <= s.len(),
    ensures
        trim_seq(s.subrange(a, b)) == s.subrange(
            trim_lo(s, a, b),
            trim_hi(s, trim_lo(s, a, b), b),
        ),
{
    lemma_trim_lo_shift(s, a, b, a);
    lemma_trim_lo_bounds(s, a, b);
    let lo = trim_lo(s, a, b);
    assert(a <= lo <= b);
    lemma_trim_hi_shift(s, a, b, lo, b);
    lemma_trim_hi_bounds(s, lo, b);
    let hi = trim_hi(s, lo, b);
    assert(lo <= hi <= b);
    assert(s.subrange(a, b).subrange(lo - a, hi - a) =~= s.subrange(lo, hi));
}

/// The production one rule-line alternative denotes: the trimmed span's
/// characters classified, under the given left symbol.
pub open spec fn alt_model(left: Nonterminal, seg: Seq<char>) -> ProductionModel {
    ProductionModel { left, right: classify_seq(trim_seq(seg)) }
}

/// The productions a rule line denotes once its arrow and left symbol are
/// fixed: one per `|`-separated alternative of the right-hand part.
pub open spec fn rule_models(s: Seq<char>, ap: int, left: Nonterminal) -> Seq<ProductionModel> {
    split_from(s, '|', ap + 2, ap + 2).map_values(|seg: Seq<char>| alt_model(left, seg))
}

/// Whether a line span holds a rule: something is left after trimming
/// and it does not start with the comment character.
pub open spec fn line_relevant(seg: Seq<char>) -> bool {
    trim_seq(seg).len() > 0 && trim_seq(seg)[0] != '#'
}

/// What a rule line denotes: `None` when malformed (not exactly one
/// arrow, a left side that is not one character, or a terminal-class
/// left character), else the alternatives' productions.
pub open spec fn line_models(seg: Seq<char>) -> Option<Seq<ProductionModel>> {
    let t = trim_seq(seg);
    let arrows = arrows_from(t, 0);
    if arrows.len() != 1 {
        None
    } else {
        let ap = arrows[0];
        let llo = trim_lo(t, 0, ap);
        let lhi = trim_hi(t, llo, ap);
        if lhi != llo + 1 {
            None
        } else if is_terminal_char(t[llo]) {
            None
        } else {
            Some(rule_models(t, ap, Nonterminal { symbol: t[llo] }))
        }
    }
}

/// The characters of a right-hand side, in order.
pub open spec fn rhs_chars(right: Seq<Symbol>) -> Seq<char> {
    right.map_values(|sym: Symbol| sym.spec_symbol())
}

/// The rendered alternatives of one left symbol: the character strings of
/// its productions' right-hand sides, in production-list order.
pub open spec fn alt_words(ps: Seq<Production>, a: Nonterminal) -> Seq<Seq<char>>
    decreases ps.len(),
{
    if ps.len() == 0 {
        Seq::empty()
    } else {
        let rest = alt_words(ps.drop_first(), a);
        if ps[0]@.left == a {
            seq![rhs_chars(ps[0]@.right)] + rest
        } else {
            rest
        }
    }
}

proof fn lemma_alt_words_to_left(ps: Seq<Production>, a: Nonterminal)
    requires
        alt_words(ps, a).len() > 0,
    ensures
        exists|j: int| 0 <= j < ps.len() && (#[trigger] ps[j]@).left == a,
    decreases ps.len(),
{
    if ps.len() > 0 {
        if ps[0]@.left == a {
            assert((#[trigger] ps[0]@).left == a);
        } else {
            lemma_alt_words_to_left(ps.drop_first(), a);
            let j = choose|j: int|
                0 <= j < ps.drop_first().len() && (#[trigger] ps.drop_first()[j]@).left == a;
            assert((#[trigger] ps[j + 1]@).left == a);
        }
    }
}

proof fn lemma_lefts_upto_contains(ps: Seq<Production>, i: int, j: int)
    requires
        0 <= j < i <= ps.len(),
    ensures
        lefts_upto(ps, i).contains(ps[j]@.left),
    decreases i,
{
    if j == i - 1 {
        if !lefts_upto(ps, i - 1).contains(ps[j]@.left) {
            assert(lefts_upto(ps, i)[lefts_upto(ps, i).len() - 1] == ps[j]@.left);
        } else {
            let t = choose|t: int|
                0 <= t < lefts_upto(ps, i - 1).len() && (#[trigger] lefts_upto(ps, i - 1)[t])
                    == ps[j]@.left;
            assert(lefts_upto(ps, i)[t] == ps[j]@.left);
        }
    } else {
        lemma_lefts_upto_contains(ps, i - 1, j);
        let t = choose|t: int|
            0 <= t < lefts_upto(ps, i - 1).len() && (#[trigger] lefts_upto(ps, i - 1)[t])
                == ps[j]@.left;
        assert(lefts_upto(ps, i)[t] == ps[j]@.left);
    }
}

proof fn lemma_alt_words_present(ps: Seq<Production>, a: Nonterminal)
    requires
        exists|j: int| 0 <= j < ps.len() && (#[trigger] ps[j]@).left == a,
    ensures
        alt_words(ps, a).len() > 0,
    decreases ps.len(),
{
    let j = choose|j: int| 0 <= j < ps.len() && (#[trigger] ps[j]@).left == a;
    if j > 0 {
        assert(ps.drop_first()[j - 1]@.left == a);
        lemma_alt_words_present(ps.drop_first(), a);
    }
}

/// The first position of the lexicographically smallest word.
pub open spec fn lex_min_idx(xs: Seq<Seq<char>>) -> int
    decreases xs.len(),
{
    if xs.len() <= 1 {
        0
    } else {
        let m = lex_min_idx(xs.drop_last());
        if lex_le(xs.last(), xs[m]) && !lex_le(xs[m], xs.last()) {
            xs.len() - 1
        } else {
            m
        }
    }
}

proof fn lemma_lex_min_idx_bounds(xs: Seq<Seq<char>>)
    requires
        xs.len() >= 1,
    ensures
        0 <= lex_min_idx(xs) < xs.len(),
    decreases xs.len(),
{
    if xs.len() > 1 {
        lemma_lex_min_idx_bounds(xs.drop_last());
    }
}

/// The words in lexicographic order: repeatedly move the first smallest
/// word to the front.
pub open spec fn sort_lex(xs: Seq<Seq<char>>) -> Seq<Seq<char>>
    decreases xs.len(),
    via sort_lex_dec
{
    if xs.len() == 0 {
        Seq::empty()
    } else {
        seq![xs[lex_min_idx(xs)]] + sort_lex(xs.remove(lex_min_idx(xs)))
    }
}

#[via_fn]
proof fn sort_lex_dec(xs: Seq<Seq<char>>) {
    if xs.len() > 0 {
        lemma_lex_min_idx_bounds(xs);
    }
}

/// The first position of the smallest symbol character.
pub open spec fn nt_min_idx(xs: Seq<Nonterminal>) -> int
    decreases xs.len(),
{
    if xs.len() <= 1 {
        0
    } else {
        let m = nt_min_idx(xs.drop_last());
        if (xs.last().symbol as u32) < (xs[m].symbol as u32) {
            xs.len() - 1
        } else {
            m
        }
    }
}

proof fn lemma_nt_min_idx_bounds(xs: Seq<Nonterminal>)
    requires
        xs.len() >= 1,
    ensures
        0 <= nt_min_idx(xs) < xs.len(),
    decreases xs.len(),
{
    if xs.len() > 1 {
        lemma_nt_min_idx_bounds(xs.drop_last());
    }
}

/// The left symbols in ascending character order.
pub open spec fn sort_nts(xs: Seq<Nonterminal>) -> Seq<Nonterminal>
    decreases xs.len(),
    via sort_nts_dec
{
    if xs.len() == 0 {
        Seq::empty()
    } else {
        seq![xs[nt_min_idx(xs)]] + sort_nts(xs.remove(nt_min_idx(xs)))
    }
}

#[via_fn]
proof fn sort_nts_dec(xs: Seq<Nonterminal>) {
    if xs.len() > 0 {
        lemma_nt_min_idx_bounds(xs);
    }
}

/// The distinct left symbols of the first `i` productions, in
/// first-occurrence order.
pub open spec fn lefts_upto(ps: Seq<Production>, i: int) -> Seq<Nonterminal>
    decreases i,
{
    if i <= 0 {
        Seq::empty()
    } else {
        let prev = lefts_upto(ps, i - 1);
        if prev.contains(ps[i - 1]@.left) {
            prev
        } else {
            prev.push(ps[i - 1]@.left)
        }
    }
}

/// One canonical line: the left symbol, an arrow, the lexicographically
/// sorted alternatives joined with `" | "`, and a newline.
pub open spec fn canonical_line(ps: Seq<Production>, a: Nonterminal) -> Seq<char> {
    seq![a.symbol] + " -> "@ + seq_join(sort_lex(alt_words(ps, a)), " | "@) + "\n"@
}

/// The canonical lines of the listed left symbols in order, the start
/// symbol's line excluded (it is rendered first, separately).
pub open spec fn canonical_rest(
    ps: Seq<Production>,
    order: Seq<Nonterminal>,
    start: Nonterminal,
) -> Seq<char>
    decreases order.len(),
{
    if order.len() == 0 {
        Seq::empty()
    } else if order[0] == start {
        canonical_rest(ps, order.drop_first(), start)
    } else {
        canonical_line(ps, order[0]) + canonical_rest(ps, order.drop_first(), start)
    }
}

/// The whole canonical text: the start symbol's line first (when it has
/// alternatives), the other left symbols' lines in ascending character
/// order; a grammar without rules renders as the start symbol and a bare
/// arrow.
pub open spec fn canonical_output(g: CFG) -> Seq<char> {
    let ps = g.productions@;
    let lefts = lefts_upto(ps, ps.len() as int);
    if lefts.len() == 0 {
        seq![g.start.symbol] + " -> "@
    } else {
        (if alt_words(ps, g.start).len() > 0 {
            canonical_line(ps, g.start)
        } else {
            Seq::empty()
        }) + canonical_rest(ps, sort_nts(lefts), g.start)
    }
}

/// How a grammar text fails to parse.
#[derive(Debug)]
pub enum GrammarError {
    /// A rule line without exactly one arrow, or whose left side is not
    /// exactly one character.
    BadRule(String),
    /// A lowercase or numeric character on the left side of a rule.
    TerminalAtLhs(String),
    /// No valid rule in the whole input.
    NoRule,
}

/// The characters of the string, in order.
fn str_to_chars(s: &str) -> (r: Vec<char>)
    ensures
        r@ == s@,
{
    let n = s.unicode_len();
    let mut r: Vec<char> = Vec::new();
    let mut i: usize = 0;
    while i < n
        invariant
            i <= n,
            n == s@.len(),
            r@ == s@.take(i as int),
        decreases n - i,
    {
        r.push(s.get_char(i));
        proof {
            assert(r@ =~= s@.take(i + 1 as int));
        }
        i = i + 1;
    }
    proof {
        assert(r@ =~= s@);
    }
    r
}

/// `a` is at most `b` in lexicographic order of character code points,
/// the order Rust gives strings of these characters.
pub open spec fn lex_le(a: Seq<char>, b: Seq<char>) -> bool
    decreases a.len(),
{
    if a.len() == 0 {
        true
    } else if b.len() == 0 {
        false
    } else if a[0] == b[0] {
        lex_le(a.drop_first(), b.drop_first())
    } else {
        (a[0] as u32) < (b[0] as u32)
    }
}

/// Decides the lexicographic order of two character sequences.
fn lex_le_exec(a: &Vec<char>, b: &Vec<char>) -> (r: bool)
    ensures
        r == lex_le(a@, b@),
{
    let mut i: usize = 0;
    proof {
        assert(a@.skip(0) =~= a@);
        assert(b@.skip(0) =~= b@);
    }
    while i < a.len() && i < b.len()
        invariant
            i <= a.len(),
            i <= b.len(),
            forall|k: int| 0 <= k < i ==> a@[k] == b@[k],
            lex_le(a@, b@) == lex_le(a@.skip(i as int), b@.skip(i as int)),
        decreases a.len() - i,
    {
        let ca = a[i];
        let cb = b[i];
        proof {
            assert(a@.skip(i as int)[0] == ca);
            assert(b@.skip(i as int)[0] == cb);
            assert(a@.skip(i as int).drop_first() =~= a@.skip(i + 1 as int));
            assert(b@.skip(i as int).drop_first() =~= b@.skip(i + 1 as int));
        }
        if ca != cb {
            return (ca as u32) < (cb as u32);
        }
        i = i + 1;
    }
    proof {
        assert(a@.skip(i as int).len() == 0 || b@.skip(i as int).len() == 0);
    }
    a.len() <= b.len()
}

/// Decides whether every right-hand nonterminal is already listed as
/// generating; terminals pass freely.
fn rhs_all_gen(right: &Vec<Symbol>, s: &Vec<Nonterminal>) -> (r: bool)
    ensures
        r == all_gen(right@, nts_set(s@)),
{
    let mut k: usize = 0;
    while k < right.len()
        invariant
            k <= right.len(),
            forall|t: int|
                0 <= t < k ==> ((#[trigger] right@[t]) is N ==> nts_set(s@).contains(
                    Nonterminal { symbol: right@[t].spec_symbol() },
                )),
        decreases right.len() - k,
    {
        match right[k] {
            Symbol::N(nn) => {
                if !contains_nt(s, nn) {
                    return false;
                }
            },
            Symbol::T(_) => {},
        }
        k = k + 1;
    }
    true
}

} // verus!
