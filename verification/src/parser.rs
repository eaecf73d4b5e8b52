//! The chart recognizer and the derivation-tree extractor.
//!
//! The recognizer builds one state set of dotted items per input position by
//! the classic prediction / scan / completion closure; its result is pinned
//! exactly by the spec-level `chart_spec`, so recognizing the same grammar
//! and token sequence always yields the same chart. The extractor turns the
//! finished chart into an edge index and reconstructs one derivation tree by
//! backtracking split search.

use vstd::prelude::*;
use crate::grammar::{Grammar, Rule, Symbol};
use crate::tokenizer::Token;

verus! {

/// One dotted Earley item: rule `rule_id` with the dot before body position
/// `position`, whose derivation began at chart index `start`.
#[derive(Clone, Copy, Debug, PartialEq, Eq, Structural)]
pub struct EarleyItem {
    pub rule_id: usize,
    pub position: usize,
    pub start: usize,
}

/// The item with its dot advanced one body position.
pub open spec fn adv(it: EarleyItem) -> EarleyItem {
    EarleyItem { rule_id: it.rule_id, position: (it.position + 1) as usize, start: it.start }
}

/// Whether the item's dot stands at (or past) the end of its rule's body.
pub open spec fn item_complete(g: Grammar, it: EarleyItem) -> bool {
    it.position >= g.rule_body(it.rule_id as int).len()
}

/// The body symbol id right after the item's dot.
pub open spec fn cur_sym(g: Grammar, it: EarleyItem) -> usize {
    g.rule_body(it.rule_id as int)[it.position as int]
}

/// Whether incomplete item `prev` awaits exactly the head symbol of the rule
/// that complete item `it` has just finished.
pub open spec fn item_fits(g: Grammar, prev: EarleyItem, it: EarleyItem) -> bool {
    g.symbols@[cur_sym(g, prev) as int].id == g.rules@[it.rule_id as int].start
}

/// Whether every body symbol before the item's dot is terminal.
pub open spec fn prefix_terminal(g: Grammar, it: EarleyItem) -> bool {
    forall|k: int|
        0 <= k < it.position ==> g.symbols@[(#[trigger] g.rule_body(it.rule_id as int)[k]) as int]
            .is_terminal
}

/// Validity of one item as a member of state set `i`: indices in bounds, the
/// origin no later than `i`, a complete item's origin strictly earlier, and —
/// since each terminal before the dot consumed exactly one token — a wholly
/// terminal prefix spans exactly `i - start` positions.
pub open spec fn item_ok(g: Grammar, it: EarleyItem, i: int) -> bool {
    &&& it.rule_id < g.rules@.len()
    &&& it.position <= g.rule_body(it.rule_id as int).len()
    &&& it.start <= i
    &&& item_complete(g, it) ==> it.start < i
    &&& prefix_terminal(g, it) ==> it.start + it.position == i
}

/// Validity of one state set at chart index `i`, including the dedup
/// invariant: no two items of a set are structurally equal.
pub open spec fn set_ok(g: Grammar, s: Seq<EarleyItem>, i: int) -> bool {
    &&& forall|k: int| 0 <= k < s.len() ==> item_ok(g, #[trigger] s[k], i)
    &&& s.no_duplicates()
}

/// The views of a chart's state sets.
pub open spec fn set_views(sets: Seq<Vec<EarleyItem>>) -> Seq<Seq<EarleyItem>> {
    sets.map_values(|v: Vec<EarleyItem>| v@)
}

/// Validity of every state set of a (partial) chart.
pub open spec fn sets_ok(g: Grammar, vs: Seq<Seq<EarleyItem>>) -> bool {
    forall|j: int| 0 <= j < vs.len() ==> set_ok(g, #[trigger] vs[j], j)
}

/// The token symbols of a token sequence.
pub open spec fn tok_syms(ts: Seq<Token>) -> Seq<usize> {
    ts.map_values(|t: Token| t.symbol)
}

/// Appends `it` unless it is already present: set semantics with insertion
/// order preserved.
pub open spec fn push_new(s: Seq<EarleyItem>, it: EarleyItem) -> Seq<EarleyItem> {
    if s.contains(it) {
        s
    } else {
        s.push(it)
    }
}

/// The completion step for complete item `it`: every incomplete item of the
/// origin set that awaits the finished head is appended advanced, in origin
/// order, deduplicated.
pub open spec fn complete_fold(
    g: Grammar,
    oset: Seq<EarleyItem>,
    it: EarleyItem,
    acc: Seq<EarleyItem>,
    j: int,
) -> Seq<EarleyItem>
    decreases oset.len() - j,
{
    if j < 0 || j >= oset.len() {
        acc
    } else {
        let p = oset[j];
        let acc2 = if !item_complete(g, p) && item_fits(g, p, it) {
            push_new(acc, adv(p))
        } else {
            acc
        };
        complete_fold(g, oset, it, acc2, j + 1)
    }
}

/// The prediction step for incomplete item `it` whose next symbol is the
/// non-terminal `cur_sym(g, it)`: one fresh item per rule headed by that
/// symbol, in rule order, deduplicated.
pub open spec fn predict_fold(
    g: Grammar,
    it: EarleyItem,
    pos: usize,
    acc: Seq<EarleyItem>,
    j: int,
) -> Seq<EarleyItem>
    decreases g.rules@.len() - j,
{
    if j < 0 || j >= g.rules@.len() {
        acc
    } else {
        let acc2 = if g.rules@[j].start == g.symbols@[cur_sym(g, it) as int].id {
            push_new(acc, EarleyItem { rule_id: g.rules@[j].id, position: 0, start: pos })
        } else {
            acc
        };
        predict_fold(g, it, pos, acc2, j + 1)
    }
}

/// One worklist step: processing item `it` of the current set at position
/// `old_sets.len()` against scan symbol `toksym` yields the new current and
/// next sets.
pub open spec fn wl_step(
    g: Grammar,
    old_sets: Seq<Seq<EarleyItem>>,
    toksym: usize,
    cur: Seq<EarleyItem>,
    next: Seq<EarleyItem>,
    it: EarleyItem,
) -> (Seq<EarleyItem>, Seq<EarleyItem>) {
    if item_complete(g, it) {
        if 0 <= it.start < old_sets.len() {
            (complete_fold(g, old_sets[it.start as int], it, cur, 0), next)
        } else {
            (cur, next)
        }
    } else {
        let s = cur_sym(g, it);
        if g.symbols@[s as int].is_terminal {
            if g.symbols@[s as int].id == toksym {
                (cur, push_new(next, adv(it)))
            } else {
                (cur, next)
            }
        } else {
            (predict_fold(g, it, old_sets.len() as usize, cur, 0), next)
        }
    }
}

/// The first `k` worklist steps from the seed sets: step `k` processes the
/// item at index `k` of the growing current set, if one exists.
pub open spec fn wl_build(
    g: Grammar,
    old_sets: Seq<Seq<EarleyItem>>,
    toksym: usize,
    cur0: Seq<EarleyItem>,
    next0: Seq<EarleyItem>,
    k: int,
) -> (Seq<EarleyItem>, Seq<EarleyItem>)
    decreases k,
{
    if k <= 0 {
        (cur0, next0)
    } else {
        let (c, n) = wl_build(g, old_sets, toksym, cur0, next0, k - 1);
        if k - 1 < c.len() {
            wl_step(g, old_sets, toksym, c, n, c[k - 1])
        } else {
            (c, n)
        }
    }
}

/// The closed current set and the scanned next seed: the worklist run to its
/// fixed point. A state set can never hold more than `usize::MAX` items, so
/// that many steps always reach the fixed point.
pub open spec fn closure(
    g: Grammar,
    old_sets: Seq<Seq<EarleyItem>>,
    toksym: usize,
    cur0: Seq<EarleyItem>,
    next0: Seq<EarleyItem>,
) -> (Seq<EarleyItem>, Seq<EarleyItem>) {
    wl_build(g, old_sets, toksym, cur0, next0, usize::MAX as int)
}

/// Once the worklist index has passed the end of the current set, further
/// steps change nothing.
pub proof fn lemma_wl_stable(
    g: Grammar,
    old_sets: Seq<Seq<EarleyItem>>,
    toksym: usize,
    cur0: Seq<EarleyItem>,
    next0: Seq<EarleyItem>,
    k1: int,
    k2: int,
)
    requires
        0 <= k1 <= k2,
        wl_build(g, old_sets, toksym, cur0, next0, k1).0.len() <= k1,
    ensures
        wl_build(g, old_sets, toksym, cur0, next0, k2) == wl_build(
            g,
            old_sets,
            toksym,
            cur0,
            next0,
            k1,
        ),
    decreases k2 - k1,
{
    if k2 > k1 {
        lemma_wl_stable(g, old_sets, toksym, cur0, next0, k1, k2 - 1);
    }
}

/// The initial state set: one item at dot position 0 and origin 0 for every
/// rule headed by the start symbol, in rule order.
pub open spec fn init_fold(g: Grammar, acc: Seq<EarleyItem>, j: int) -> Seq<EarleyItem>
    decreases g.rules@.len() - j,
{
    if j < 0 || j >= g.rules@.len() {
        acc
    } else {
        let acc2 = if g.rules@[j].start == g.start {
            push_new(acc, EarleyItem { rule_id: g.rules@[j].id, position: 0, start: 0 })
        } else {
            acc
        };
        init_fold(g, acc2, j + 1)
    }
}

/// The chart after `m` positions have been processed: the closed sets
/// `0 .. m-1` and the pending seed of set `m`.
pub open spec fn chart_state(g: Grammar, toks: Seq<usize>, m: int) -> (
    Seq<Seq<EarleyItem>>,
    Seq<EarleyItem>,
)
    decreases m,
{
    if m <= 0 {
        (Seq::empty(), init_fold(g, Seq::empty(), 0))
    } else {
        let (done, seed) = chart_state(g, toks, m - 1);
        let (c, nx) = closure(g, done, toks[m - 1], seed, Seq::empty());
        (done.push(c), nx)
    }
}

/// The full chart of a grammar and token-symbol sequence: one closed state
/// set per position, and the final set fed by scanning the last token.
pub open spec fn chart_spec(g: Grammar, toks: Seq<usize>) -> Seq<Seq<EarleyItem>> {
    let (done, seed) = chart_state(g, toks, toks.len() as int);
    done.push(seed)
}

/// The character of one decimal digit.
pub open spec fn digit_char(d: int) -> char {
    if d == 0 {
        '0'
    } else if d == 1 {
        '1'
    } else if d == 2 {
        '2'
    } else if d == 3 {
        '3'
    } else if d == 4 {
        '4'
    } else if d == 5 {
        '5'
    } else if d == 6 {
        '6'
    } else if d == 7 {
        '7'
    } else if d == 8 {
        '8'
    } else {
        '9'
    }
}

/// The decimal text of a non-negative number, most significant digit first.
pub open spec fn dec_digits(n: int) -> Seq<char>
    decreases n,
{
    if n < 10 {
        seq![digit_char(n)]
    } else {
        dec_digits(n / 10) + seq![digit_char(n % 10)]
    }
}

/// One decimal digit as text.
fn digit_str(d: usize) -> (r: &'static str)
    requires
        d <= 9,
    ensures
        r@ == seq![digit_char(d as int)],
{
    proof {
        reveal_strlit("0");
        reveal_strlit("1");
        reveal_strlit("2");
        reveal_strlit("3");
        reveal_strlit("4");
        reveal_strlit("5");
        reveal_strlit("6");
        reveal_strlit("7");
        reveal_strlit("8");
        reveal_strlit("9");
    }
    let r: &'static str = match d {
        0 => "0",
        1 => "1",
        2 => "2",
        3 => "3",
        4 => "4",
        5 => "5",
        6 => "6",
        7 => "7",
        8 => "8",
        _ => "9",
    };
    proof {
        assert(r@ =~= seq![digit_char(d as int)]);
    }
    r
}

/// The decimal text of `n`.
fn dec_str(n: usize) -> (r: String)
    ensures
        r@ == dec_digits(n as int),
{
    let mut r = String::new();
    let mut m = n;
    proof {
        assert(dec_digits(n as int) =~= dec_digits(m as int) + r@);
    }
    loop
        invariant_except_break
            dec_digits(n as int) == dec_digits(m as int) + r@,
        ensures
            r@ == dec_digits(n as int),
        decreases m,
    {
        let d = m % 10;
        let rest = m / 10;
        let ghost r_before = r@;
        r = String::from_str(digit_str(d)).concat(r.as_str());
        proof {
            assert(r@ =~= seq![digit_char(d as int)] + r_before);
            if m < 10 {
                assert(dec_digits(m as int) == seq![digit_char(m as int)]);
                assert(dec_digits(n as int) =~= r@);
            } else {
                assert(dec_digits(m as int) == dec_digits(m as int / 10) + seq![
                    digit_char(m as int % 10),
                ]);
                assert(dec_digits(n as int) =~= dec_digits(rest as int) + r@);
            }
        }
        if rest == 0 {
            break;
        }
        m = rest;
    }
    r
}

impl EarleyItem {
    /// The symbol right after this item's dot.
    pub fn get_current_symbol<'a>(&self, gram: &'a Grammar) -> (r: &'a Symbol)
        requires
            self.rule_id < gram.rules@.len(),
            !item_complete(*gram, *self),
            cur_sym(*gram, *self) < gram.symbols@.len(),
        ensures
            *r == gram.symbols@[cur_sym(*gram, *self) as int],
    {
        let rule = self.get_rule(gram);
        let current_symbol = rule.symbols[self.position];
        &gram.symbols[current_symbol]
    }

    /// This item's rule.
    pub fn get_rule<'a>(&self, gram: &'a Grammar) -> (r: &'a Rule)
        requires
            self.rule_id < gram.rules@.len(),
        ensures
            *r == gram.rules@[self.rule_id as int],
    {
        &gram.rules[self.rule_id]
    }

    /// This item's rule body.
    pub fn get_symbols<'a>(&self, gram: &'a Grammar) -> (r: &'a Vec<usize>)
        requires
            self.rule_id < gram.rules@.len(),
        ensures
            r@ == gram.rule_body(self.rule_id as int),
    {
        &self.get_rule(gram).symbols
    }

    /// Whether the dot stands at the end of the rule body.
    pub fn is_complete(&self, gram: &Grammar) -> (r: bool)
        requires
            self.rule_id < gram.rules@.len(),
            self.position <= gram.rule_body(self.rule_id as int).len(),
        ensures
            r == item_complete(*gram, *self),
    {
        self.get_symbols(gram).len() == self.position
    }

    /// Whether this incomplete item awaits the head of `other_item`'s rule.
    pub fn fits(&self, gram: &Grammar, other_item: &EarleyItem) -> (r: bool)
        requires
            self.rule_id < gram.rules@.len(),
            !item_complete(*gram, *self),
            cur_sym(*gram, *self) < gram.symbols@.len(),
            other_item.rule_id < gram.rules@.len(),
        ensures
            r == item_fits(*gram, *self, *other_item),
    {
        self.get_current_symbol(gram).id == gram.rules[other_item.rule_id].start
    }
}

/// The rendered text of the first `j` body symbols of an item's rule, each
/// followed by one space, with the dot marker before the symbol it stands
/// at.
pub open spec fn item_body_text(g: Grammar, it: EarleyItem, j: int) -> Seq<char>
    decreases j,
{
    if j <= 0 {
        Seq::empty()
    } else {
        item_body_text(g, it, j - 1) + (if j - 1 == it.position {
            " \\*/ "@
        } else {
            Seq::empty()
        }) + g.symbols@[g.rule_body(it.rule_id as int)[j - 1] as int].name@ + " "@
    }
}

/// The rendered text of a dotted item: origin, head, arrow, and the body
/// with the dot marker in place (after the body when the item is complete).
pub open spec fn item_text(g: Grammar, it: EarleyItem) -> Seq<char> {
    "("@ + dec_digits(it.start as int) + ") "@ + g.symbols@[g.rule_head(it.rule_id as int)].name@
        + " -> "@ + item_body_text(g, it, g.rule_body(it.rule_id as int).len() as int) + (
    if item_complete(g, it) {
        " \\*/ "@
    } else {
        Seq::empty()
    })
}

impl EarleyItem {
    /// Renders this item: origin in parentheses, then the dotted rule.
    #[verifier::loop_isolation(false)]
    pub fn to_string(&self, gram: &Grammar) -> (f: String)
        requires
            self.rule_id < gram.rules@.len(),
            gram.rule_head(self.rule_id as int) < gram.symbols@.len(),
            forall|j: int|
                0 <= j < gram.rule_body(self.rule_id as int).len()
                    ==> (#[trigger] gram.rule_body(self.rule_id as int)[j])
                    < gram.symbols@.len(),
        ensures
            f@ == item_text(*gram, *self),
    {
        let mut f = String::new();
        f.append("(");
        let num = dec_str(self.start);
        f.append(num.as_str());
        f.append(") ");
        let rule = self.get_rule(gram);
        f.append(gram.symbols[rule.start].name.as_str());
        f.append(" -> ");
        let ghost head_text = f@;
        let n = rule.symbols.len();
        let mut i: usize = 0;
        while i < n
            invariant
                i <= n,
                f@ == head_text + item_body_text(*gram, *self, i as int),
            decreases n - i,
        {
            if i == self.position {
                f.append(" \\*/ ");
            }
            let sym = rule.symbols[i];
            f.append(gram.symbols[sym].name.as_str());
            f.append(" ");
            proof {
                assert(f@ =~= head_text + item_body_text(*gram, *self, i + 1));
            }
            i += 1;
        }
        if self.position >= n {
            f.append(" \\*/ ");
        }
        proof {
            assert(f@ =~= item_text(*gram, *self));
        }
        f
    }
}

/// Whether `v` holds an item structurally equal to `it`.
fn contains_item(v: &Vec<EarleyItem>, it: &EarleyItem) -> (r: bool)
    ensures
        r == v@.contains(*it),
{
    let n = v.len();
    let mut k: usize = 0;
    while k < n
        invariant
            n == v@.len(),
            k <= n,
            forall|j: int| 0 <= j < k ==> v@[j] != *it,
        decreases n - k,
    {
        if v[k] == *it {
            return true;
        }
        k += 1;
    }
    false
}

/// Runs the worklist closure of one state set: completion and prediction
/// grow `current_state_set` in place (deduplicated, insertion order kept),
/// and scanning `token` seeds `next_state_set`. `old` holds the closed sets
/// of all earlier positions; `index` is the position being closed.
#[verifier::loop_isolation(false)]
pub fn process_state_set(
    current_state_set: &mut Vec<EarleyItem>,
    next_state_set: &mut Vec<EarleyItem>,
    gram: &Grammar,
    old_sets: &Vec<Vec<EarleyItem>>,
    token: &Token,
    index: usize,
)
    requires
        gram.wf(),
        index == old_sets@.len(),
        sets_ok(*gram, set_views(old_sets@)),
        set_ok(*gram, old(current_state_set)@, index as int),
        set_ok(*gram, old(next_state_set)@, index + 1),
    ensures
        (final(current_state_set)@, final(next_state_set)@) == closure(
            *gram,
            set_views(old_sets@),
            token.symbol,
            old(current_state_set)@,
            old(next_state_set)@,
        ),
        set_ok(*gram, final(current_state_set)@, index as int),
        set_ok(*gram, final(next_state_set)@, index + 1),
{
    let ghost old_v = set_views(old_sets@);
    let ghost cur0 = current_state_set@;
    let ghost nx0 = next_state_set@;
    proof {
        assert(old_v.len() == index);
    }
    let mut i: usize = 0;
    while i < current_state_set.len()
        invariant
            i <= current_state_set@.len(),
            (current_state_set@, next_state_set@) == wl_build(
                *gram,
                old_v,
                token.symbol,
                cur0,
                nx0,
                i as int,
            ),
            set_ok(*gram, current_state_set@, index as int),
            set_ok(*gram, next_state_set@, index + 1),
        decreases usize::MAX - i,
    {
        let item = current_state_set[i];
        proof {
            assert(item_ok(*gram, item, index as int));
        }
        let rule_len = gram.rules[item.rule_id].symbols.len();
        let ghost curi = current_state_set@;
        let ghost nxi = next_state_set@;
        if item.position >= rule_len {
            // Completion: the head of item's rule spans [item.start, index);
            // advance every item of the origin set that awaits it.
            let ghost oset = old_v[item.start as int];
            proof {
                assert(old_sets@[item.start as int]@ == oset);
                assert(set_ok(*gram, oset, item.start as int));
            }
            let origin_set = &old_sets[item.start];
            let mut j: usize = 0;
            while j < origin_set.len()
                invariant
                    j <= origin_set@.len(),
                    origin_set@ == oset,
                    complete_fold(*gram, oset, item, current_state_set@, j as int)
                        == complete_fold(*gram, oset, item, curi, 0),
                    current_state_set@.len() >= curi.len(),
                    next_state_set@ == nxi,
                    set_ok(*gram, current_state_set@, index as int),
                decreases origin_set@.len() - j,
            {
                let past_item = origin_set[j];
                let ghost cur_j = current_state_set@;
                proof {
                    assert(item_ok(*gram, past_item, item.start as int));
                    if !item_complete(*gram, past_item) {
                        assert(gram.rule_body(past_item.rule_id as int)[past_item.position as int]
                            < gram.symbols@.len());
                    }
                }
                if !past_item.is_complete(gram) && past_item.fits(gram, &item) {
                    let past_len = gram.rules[past_item.rule_id].symbols.len();
                    proof {
                        assert(past_item.position < past_len);
                    }
                    let new_item = EarleyItem {
                        rule_id: past_item.rule_id,
                        position: past_item.position + 1,
                        start: past_item.start,
                    };
                    proof {
                        assert(new_item == adv(past_item));
                        // The newly crossed body symbol is the completed
                        // rule's head, a non-terminal, so the terminal-prefix
                        // clause holds vacuously.
                        let h = gram.rules@[item.rule_id as int].start;
                        assert(gram.rule_head(item.rule_id as int) == h as int);
                        assert(!gram.is_term(h as int));
                        assert(gram.symbols@[cur_sym(*gram, past_item) as int].id == h);
                        assert(cur_sym(*gram, past_item) == h);
                        assert(!gram.symbols@[(gram.rule_body(new_item.rule_id as int)[
                            past_item.position as int]) as int].is_terminal);
                        assert(!prefix_terminal(*gram, new_item));
                        assert(item_ok(*gram, new_item, index as int));
                    }
                    if !contains_item(current_state_set, &new_item) {
                        current_state_set.push(new_item);
                    }
                    proof {
                        assert(current_state_set@ == push_new(cur_j, adv(past_item)));
                    }
                }
                proof {
                    assert(complete_fold(*gram, oset, item, current_state_set@, j + 1)
                        == complete_fold(*gram, oset, item, cur_j, j as int));
                }
                j += 1;
            }
        } else {
            // The dot stands before a symbol: scan it if terminal, else
            // predict every rule it heads.
            proof {
                assert(gram.rule_body(item.rule_id as int)[item.position as int]
                    < gram.symbols@.len());
            }
            let next_symbol = item.get_current_symbol(gram);
            if next_symbol.is_terminal {
                // Scan: the item advances into the next state set when the
                // awaited terminal matches this position's token.
                if next_symbol.id == token.symbol {
                    let new_item = EarleyItem {
                        rule_id: item.rule_id,
                        position: item.position + 1,
                        start: item.start,
                    };
                    proof {
                        assert(new_item == adv(item));
                        assert(item_ok(*gram, new_item, index + 1));
                    }
                    if !contains_item(next_state_set, &new_item) {
                        next_state_set.push(new_item);
                    }
                }
            } else {
                // Prediction: one fresh item per rule headed by the awaited
                // non-terminal, originating here.
                let mut j: usize = 0;
                while j < gram.rules.len()
                    invariant
                        j <= gram.rules@.len(),
                        predict_fold(*gram, item, index, current_state_set@, j as int)
                            == predict_fold(*gram, item, index, curi, 0),
                        current_state_set@.len() >= curi.len(),
                        next_state_set@ == nxi,
                        set_ok(*gram, current_state_set@, index as int),
                    decreases gram.rules@.len() - j,
                {
                    let ghost cur_j = current_state_set@;
                    let rule = &gram.rules[j];
                    if rule.start == next_symbol.id {
                        let new_item = EarleyItem {
                            rule_id: rule.id,
                            position: 0,
                            start: index,
                        };
                        proof {
                            assert(item_ok(*gram, new_item, index as int));
                        }
                        if !contains_item(current_state_set, &new_item) {
                            current_state_set.push(new_item);
                        }
                        proof {
                            assert(current_state_set@ == push_new(
                                cur_j,
                                EarleyItem { rule_id: rule.id, position: 0, start: index },
                            ));
                        }
                    }
                    proof {
                        assert(predict_fold(*gram, item, index, current_state_set@, j + 1)
                            == predict_fold(*gram, item, index, cur_j, j as int));
                    }
                    j += 1;
                }
            }
        }
        proof {
            assert((current_state_set@, next_state_set@) == wl_step(
                *gram,
                old_v,
                token.symbol,
                curi,
                nxi,
                item,
            ));
            assert((current_state_set@, next_state_set@) == wl_build(
                *gram,
                old_v,
                token.symbol,
                cur0,
                nx0,
                i + 1,
            ));
        }
        i += 1;
    }
    proof {
        lemma_wl_stable(*gram, old_v, token.symbol, cur0, nx0, i as int, usize::MAX as int);
    }
}

/// Builds the chart: one state set per input position, each closed by
/// prediction and completion before the next token is scanned. The result is
/// exactly `chart_spec` of the grammar and the token symbols — a pure
/// function of the inputs — and every state set is valid and free of
/// duplicate items.
#[verifier::loop_isolation(false)]
pub fn recognize(gram: &Grammar, tokens: &Vec<Token>) -> (chart: Vec<Vec<EarleyItem>>)
    requires
        gram.wf(),
    ensures
        set_views(chart@) == chart_spec(*gram, tok_syms(tokens@)),
        chart@.len() == tokens@.len() + 1,
        forall|j: int| 0 <= j < chart@.len() ==> set_ok(*gram, (#[trigger] chart@[j])@, j),
        forall|j: int| 0 <= j < chart@.len() ==> (#[trigger] chart@[j])@.no_duplicates(),
{
    let ghost toks = tok_syms(tokens@);
    let mut chart: Vec<Vec<EarleyItem>> = Vec::new();
    // The initial state set: every rule headed by the start symbol, at dot
    // position 0 and origin 0.
    let mut current: Vec<EarleyItem> = Vec::new();
    let mut r: usize = 0;
    while r < gram.rules.len()
        invariant
            r <= gram.rules@.len(),
            init_fold(*gram, current@, r as int) == init_fold(*gram, Seq::empty(), 0),
            set_ok(*gram, current@, 0),
        decreases gram.rules@.len() - r,
    {
        let ghost cur_r = current@;
        let rule = &gram.rules[r];
        if rule.start == gram.start {
            let new_item = EarleyItem { rule_id: rule.id, position: 0, start: 0 };
            proof {
                assert(item_ok(*gram, new_item, 0));
            }
            if !contains_item(&current, &new_item) {
                current.push(new_item);
            }
            proof {
                assert(current@ == push_new(
                    cur_r,
                    EarleyItem { rule_id: rule.id, position: 0, start: 0 },
                ));
            }
        }
        proof {
            assert(init_fold(*gram, current@, r + 1) == init_fold(*gram, cur_r, r as int));
        }
        r += 1;
    }
    let mut index: usize = 0;
    while index < tokens.len()
        invariant
            index <= tokens@.len(),
            chart@.len() == index,
            (set_views(chart@), current@) == chart_state(*gram, toks, index as int),
            forall|j: int| 0 <= j < index ==> set_ok(*gram, (#[trigger] chart@[j])@, j),
            set_ok(*gram, current@, index as int),
        decreases tokens@.len() - index,
    {
        let mut next: Vec<EarleyItem> = Vec::new();
        proof {
            assert(sets_ok(*gram, set_views(chart@)));
            assert(set_ok(*gram, next@, index + 1));
        }
        process_state_set(&mut current, &mut next, gram, &chart, &tokens[index], index);
        let ghost chart_before = chart@;
        chart.push(current);
        current = next;
        proof {
            assert(set_views(chart@) =~= set_views(chart_before).push(chart@[index as int]@));
            assert(toks[index as int] == tokens@[index as int].symbol);
            assert((set_views(chart@), current@) == chart_state(*gram, toks, index + 1));
        }
        index += 1;
    }
    let ghost chart_before = chart@;
    chart.push(current);
    proof {
        assert(set_views(chart@) =~= set_views(chart_before).push(chart@[index as int]@));
        assert(set_views(chart@) == chart_spec(*gram, toks));
    }
    chart
}

/// Whether every body symbol of rule `r` is terminal.
pub open spec fn body_all_terminal(g: Grammar, r: int) -> bool {
    forall|k: int|
        0 <= k < g.rule_body(r).len() ==> g.symbols@[(#[trigger] g.rule_body(r)[k]) as int]
            .is_terminal
}

/// Validity of one edge stored in the index at origin `o`, for a chart of
/// `n` state sets. In an edge the `start` field holds the derivation's end
/// position; `position` stays at the full body length. A rule whose body is
/// wholly terminal spans exactly as many positions as it has body symbols.
pub open spec fn edge_ok(g: Grammar, e: EarleyItem, o: int, n: int) -> bool {
    &&& e.rule_id < g.rules@.len()
    &&& e.position == g.rule_body(e.rule_id as int).len()
    &&& o <= e.start < n
    &&& body_all_terminal(g, e.rule_id as int) ==> e.start == o + g.rule_body(
        e.rule_id as int,
    ).len()
}

/// Validity of the whole edge index.
pub open spec fn edges_wf(g: Grammar, lookup: Seq<Seq<EarleyItem>>, n: int) -> bool {
    &&& lookup.len() == n
    &&& forall|o: int, k: int|
        0 <= o < n && 0 <= k < lookup[o].len() ==> edge_ok(g, #[trigger] lookup[o][k], o, n)
}

/// One state set's contribution to the edge index: every complete item of
/// the set at index `bin` becomes an edge at its origin, its `start` field
/// rewritten to the end position `bin`.
pub open spec fn rev_inner(
    g: Grammar,
    set: Seq<EarleyItem>,
    bin: usize,
    acc: Seq<Seq<EarleyItem>>,
    j: int,
) -> Seq<Seq<EarleyItem>>
    decreases set.len() - j,
{
    if j < 0 || j >= set.len() {
        acc
    } else {
        let item = set[j];
        let acc2 = if item_complete(g, item) && 0 <= item.start < acc.len() {
            acc.update(
                item.start as int,
                acc[item.start as int].push(
                    EarleyItem { rule_id: item.rule_id, position: item.position, start: bin },
                ),
            )
        } else {
            acc
        };
        rev_inner(g, set, bin, acc2, j + 1)
    }
}

/// The edge index built from the state sets in reverse order, so that each
/// origin's edges stand sorted by end position, latest first.
pub open spec fn rev_outer(
    g: Grammar,
    sets: Seq<Seq<EarleyItem>>,
    acc: Seq<Seq<EarleyItem>>,
    ii: int,
) -> Seq<Seq<EarleyItem>>
    decreases sets.len() - ii,
{
    if ii < 0 || ii >= sets.len() {
        acc
    } else {
        let bin = (sets.len() - 1 - ii) as usize;
        rev_outer(g, sets, rev_inner(g, sets[bin as int], bin, acc, 0), ii + 1)
    }
}

/// The full edge index of a chart.
pub open spec fn rev_spec(g: Grammar, sets: Seq<Seq<EarleyItem>>) -> Seq<Seq<EarleyItem>> {
    rev_outer(g, sets, Seq::new(sets.len(), |o: int| Seq::empty()), 0)
}

/// Builds the edge index: walks the chart's state sets from the last to the
/// first and files every complete item under its origin, with the `start`
/// field rewritten to the end position. Incomplete items are discarded.
#[verifier::loop_isolation(false)]
pub fn reverse_and_sort(state_sets: &Vec<Vec<EarleyItem>>, gram: &Grammar) -> (result: Vec<
    Vec<EarleyItem>,
>)
    requires
        gram.wf(),
        sets_ok(*gram, set_views(state_sets@)),
    ensures
        set_views(result@) == rev_spec(*gram, set_views(state_sets@)),
        result@.len() == state_sets@.len(),
        edges_wf(*gram, set_views(result@), state_sets@.len() as int),
{
    let ghost sets = set_views(state_sets@);
    let n = state_sets.len();
    let mut result: Vec<Vec<EarleyItem>> = Vec::new();
    while result.len() < n
        invariant
            result@.len() <= n,
            set_views(result@) =~= Seq::new(result@.len(), |o: int| Seq::empty()),
        decreases n - result@.len(),
    {
        let ghost before = result@;
        result.push(Vec::new());
        proof {
            assert(set_views(result@) =~= set_views(before).push(Seq::empty()));
            assert(set_views(result@) =~= Seq::new(result@.len(), |o: int| Seq::empty()));
        }
    }
    proof {
        assert(set_views(result@) =~= Seq::new(sets.len(), |o: int| Seq::empty()));
        assert forall|o: int| 0 <= o < n implies (#[trigger] result@[o])@.len() == 0 by {
            assert(set_views(result@)[o] == result@[o]@);
        }
    }
    let mut ii: usize = 0;
    while ii < n
        invariant
            ii <= n,
            result@.len() == n,
            rev_outer(*gram, sets, set_views(result@), ii as int) == rev_spec(*gram, sets),
            forall|o: int, k: int|
                0 <= o < n && 0 <= k < result@[o]@.len() ==> #[trigger] edge_ok(
                    *gram,
                    result@[o]@[k],
                    o,
                    n as int,
                ),
        decreases n - ii,
    {
        let bin = n - 1 - ii;
        let ghost acc_ii = set_views(result@);
        let state_set = &state_sets[bin];
        proof {
            assert(state_set@ == sets[bin as int]);
            assert(set_ok(*gram, sets[bin as int], bin as int));
        }
        let mut j: usize = 0;
        while j < state_set.len()
            invariant
                j <= state_set@.len(),
                result@.len() == n,
                rev_inner(*gram, sets[bin as int], bin, set_views(result@), j as int)
                    == rev_inner(*gram, sets[bin as int], bin, acc_ii, 0),
                forall|o: int, k: int|
                    0 <= o < n && 0 <= k < result@[o]@.len() ==> #[trigger] edge_ok(
                        *gram,
                        result@[o]@[k],
                        o,
                        n as int,
                    ),
            decreases state_set@.len() - j,
        {
            let ghost acc_j = set_views(result@);
            let item = state_set[j];
            proof {
                assert(item == sets[bin as int][j as int]);
                assert(item_ok(*gram, item, bin as int));
            }
            if item.is_complete(gram) {
                let copy = EarleyItem { rule_id: item.rule_id, position: item.position, start: bin };
                proof {
                    // A complete item with a wholly terminal body spans
                    // exactly its body length, by the chart invariant on
                    // terminal prefixes.
                    if body_all_terminal(*gram, copy.rule_id as int) {
                        assert(prefix_terminal(*gram, item));
                        assert(item.start + item.position == bin);
                    }
                    assert(edge_ok(*gram, copy, item.start as int, n as int));
                }
                let origin = item.start;
                result[origin].push(copy);
                proof {
                    assert(set_views(result@) =~= acc_j.update(
                        origin as int,
                        acc_j[origin as int].push(copy),
                    ));
                }
            }
            proof {
                assert(rev_inner(*gram, sets[bin as int], bin, set_views(result@), j + 1)
                    == rev_inner(*gram, sets[bin as int], bin, acc_j, j as int));
            }
            j += 1;
        }
        proof {
            assert(rev_outer(*gram, sets, acc_ii, ii as int) == rev_outer(
                *gram,
                sets,
                set_views(result@),
                ii + 1,
            ));
        }
        ii += 1;
    }
    result
}

/// One node of the derivation tree: the symbol it derives and its ordered
/// children. Terminal leaves have no children.
pub struct ASTNode {
    pub children: Vec<ASTNode>,
    pub value: usize,
}

/// Count of terminal leaves of a tree.
pub open spec fn leaf_count(t: ASTNode) -> int
    decreases t, 1int, 0int,
{
    if t.children@.len() == 0 {
        1
    } else {
        leaf_count_upto(t, t.children@.len() as int)
    }
}

/// Count of terminal leaves of the first `i` children of `t`.
pub open spec fn leaf_count_upto(t: ASTNode, i: int) -> int
    decreases t, 0int, i,
{
    if i <= 0 || i > t.children@.len() {
        0
    } else {
        leaf_count_upto(t, i - 1) + leaf_count(t.children@[i - 1])
    }
}

/// Count of terminal leaves of a sequence of trees.
pub open spec fn leaf_count_seq(s: Seq<ASTNode>) -> int
    decreases s.len(),
{
    if s.len() == 0 {
        0
    } else {
        leaf_count_seq(s.drop_last()) + leaf_count(s.last())
    }
}

/// The symbols of a sequence of trees' root nodes.
pub open spec fn child_values(s: Seq<ASTNode>) -> Seq<usize> {
    s.map_values(|c: ASTNode| c.value)
}

/// Whether `t` is a derivation tree of `g`: a leaf derives a terminal
/// symbol, and an inner node derives a non-terminal by some rule of the
/// grammar whose body is exactly its children's symbols, each child being a
/// derivation tree itself.
pub open spec fn tree_ok(g: Grammar, t: ASTNode) -> bool
    decreases t, 1int, 0int,
{
    &&& t.value < g.symbols@.len()
    &&& if t.children@.len() == 0 {
        g.is_term(t.value as int)
    } else {
        &&& !g.is_term(t.value as int)
        &&& exists|r: int|
            0 <= r < g.rules@.len() && g.rule_head(r) == t.value && #[trigger] g.rule_body(r)
                == child_values(t.children@)
        &&& tree_ok_upto(g, t, t.children@.len() as int)
    }
}

/// Whether the first `i` children of `t` are derivation trees.
pub open spec fn tree_ok_upto(g: Grammar, t: ASTNode, i: int) -> bool
    decreases t, 0int, i,
{
    if i <= 0 || i > t.children@.len() {
        true
    } else {
        tree_ok_upto(g, t, i - 1) && tree_ok(g, t.children@[i - 1])
    }
}

/// The leaf count of a node equals the leaf count of its children sequence,
/// and the children are all derivation trees exactly when `tree_ok_upto`
/// says so.
pub proof fn lemma_children_facts(g: Grammar, t: ASTNode, i: int)
    requires
        0 <= i <= t.children@.len(),
    ensures
        leaf_count_upto(t, i) == leaf_count_seq(t.children@.take(i)),
        tree_ok_upto(g, t, i) <==> (forall|k: int| 0 <= k < i ==> tree_ok(g, #[trigger] t.children@[k])),
    decreases i,
{
    if i > 0 {
        lemma_children_facts(g, t, i - 1);
        assert(t.children@.take(i).drop_last() =~= t.children@.take(i - 1));
        assert(t.children@.take(i).last() == t.children@[i - 1]);
    }
}

/// Whether every symbol id in the tree is within the grammar's symbol
/// table. Rendering needs no more than this.
pub open spec fn tree_values_ok(g: Grammar, t: ASTNode) -> bool
    decreases t, 1int, 0int,
{
    &&& t.value < g.symbols@.len()
    &&& tree_values_ok_upto(g, t, t.children@.len() as int)
}

/// Whether the first `i` children of `t` hold only in-bounds symbol ids.
pub open spec fn tree_values_ok_upto(g: Grammar, t: ASTNode, i: int) -> bool
    decreases t, 0int, i,
{
    if i <= 0 || i > t.children@.len() {
        true
    } else {
        tree_values_ok_upto(g, t, i - 1) && tree_values_ok(g, t.children@[i - 1])
    }
}

/// `tree_values_ok_upto` says exactly that the first `i` children are
/// in-bounds trees, and a derivation tree is in particular in bounds.
pub proof fn lemma_tree_values_facts(g: Grammar, t: ASTNode, i: int)
    requires
        0 <= i <= t.children@.len(),
    ensures
        tree_values_ok_upto(g, t, i) <==> (forall|k: int|
            0 <= k < i ==> tree_values_ok(g, #[trigger] t.children@[k])),
    decreases i,
{
    if i > 0 {
        lemma_tree_values_facts(g, t, i - 1);
    }
}

/// The rendered text of a derivation (sub)tree: the indented symbol name on
/// one line, then each child below it, the last child's branch drawn with a
/// closing corner.
pub open spec fn ast_text(g: Grammar, t: ASTNode, ind: Seq<char>, last: bool) -> Seq<char>
    decreases t, 1int, 0int,
{
    let marker = if last {
        "\\-"@
    } else {
        "|-"@
    };
    let new_ind = ind + (if last {
        "  "@
    } else {
        "| "@
    });
    ind + marker + g.symbols@[t.value as int].name@ + "\n"@ + ast_children_text(
        g,
        t,
        new_ind,
        t.children@.len() as int,
    )
}

/// The rendered text of the first `i` children of `t`.
pub open spec fn ast_children_text(g: Grammar, t: ASTNode, ind: Seq<char>, i: int) -> Seq<char>
    decreases t, 0int, i,
{
    if i <= 0 || i > t.children@.len() {
        Seq::empty()
    } else {
        ast_children_text(g, t, ind, i - 1) + ast_text(
            g,
            t.children@[i - 1],
            ind,
            i == t.children@.len(),
        )
    }
}

impl ASTNode {
    /// Renders this tree as indented ASCII, one symbol per line.
    #[verifier::loop_isolation(false)]
    pub fn to_string(&self, gram: &Grammar, indent: &str, last: bool) -> (s: String)
        requires
            tree_values_ok(*gram, *self),
        ensures
            s@ == ast_text(*gram, *self, indent@, last),
        decreases *self,
    {
        let mut s = String::new();
        s.append(indent);
        let mut new_indent = String::from_str(indent);
        if last {
            s.append("\\-");
            new_indent.append("  ");
        } else {
            s.append("|-");
            new_indent.append("| ");
        }
        s.append(gram.symbols[self.value].name.as_str());
        s.append("\n");
        let ghost own_text = s@;
        let n = self.children.len();
        proof {
            lemma_tree_values_facts(*gram, *self, n as int);
        }
        let mut i: usize = 0;
        while i < n
            invariant
                i <= n,
                s@ == own_text + ast_children_text(*gram, *self, new_indent@, i as int),
            decreases n - i,
        {
            let child = &self.children[i];
            proof {
                assert(tree_values_ok(*gram, *child));
            }
            let sub = child.to_string(gram, new_indent.as_str(), i == n - 1);
            s.append(sub.as_str());
            proof {
                assert(s@ =~= own_text + ast_children_text(*gram, *self, new_indent@, i + 1));
            }
            i += 1;
        }
        proof {
            assert(s@ =~= ast_text(*gram, *self, indent@, last));
        }
        s
    }
}

/// The mathematical shape of a derivation tree: the symbol and the shapes of
/// the children. `build_ast`'s result is pinned as a value of this type.
#[verifier::ext_equal]
pub ghost struct SpecTree {
    pub value: usize,
    pub children: Seq<SpecTree>,
}

/// The shape of a childless leaf.
pub open spec fn spec_leaf(s: usize) -> SpecTree {
    SpecTree { value: s, children: Seq::empty() }
}

/// The shape of an executable tree.
pub open spec fn tree_view(t: ASTNode) -> SpecTree
    decreases t,
{
    SpecTree {
        value: t.value,
        children: Seq::new(
            t.children@.len(),
            |i: int|
                if 0 <= i < t.children@.len() {
                    tree_view(t.children@[i])
                } else {
                    spec_leaf(0)
                },
        ),
    }
}

/// The shapes of a sequence of executable trees.
pub open spec fn forest_view(v: Seq<ASTNode>) -> Seq<SpecTree> {
    v.map_values(|c: ASTNode| tree_view(c))
}

/// One entry of a split: a terminal body symbol covering one position, or an
/// edge of the index covering a non-terminal body symbol's span.
#[derive(Clone, Copy, PartialEq, Eq, Structural)]
pub enum SplitEntry {
    Leaf(usize),
    Edge(EarleyItem),
}

/// The body symbol an entry covers.
pub open spec fn entry_sym(g: Grammar, en: SplitEntry) -> usize {
    match en {
        SplitEntry::Leaf(s) => s,
        SplitEntry::Edge(e) => g.rules@[e.rule_id as int].start,
    }
}

/// Whether a split chains across `[from, to)` without gap or overlap: each
/// leaf consumes one position, each edge starts where the previous entry
/// ended and is a real edge of the index ending by `to`, and the last entry
/// ends exactly at `to`.
pub open spec fn chain_ok(
    g: Grammar,
    lookup: Seq<Seq<EarleyItem>>,
    sp: Seq<SplitEntry>,
    from: int,
    to: int,
) -> bool
    decreases sp.len(),
{
    if sp.len() == 0 {
        from == to
    } else {
        match sp[0] {
            SplitEntry::Leaf(s) => {
                &&& s < g.symbols@.len()
                &&& g.is_term(s as int)
                &&& from < to
                &&& chain_ok(g, lookup, sp.drop_first(), from + 1, to)
            },
            SplitEntry::Edge(e) => {
                &&& 0 <= from < lookup.len()
                &&& lookup[from].contains(e)
                &&& e.start <= to
                &&& chain_ok(g, lookup, sp.drop_first(), e.start as int, to)
            },
        }
    }
}

/// Whether the split's entries cover exactly the given body symbols, in
/// order.
pub open spec fn split_matches(g: Grammar, sp: Seq<SplitEntry>, syms: Seq<usize>) -> bool {
    &&& sp.len() == syms.len()
    &&& forall|q: int| 0 <= q < sp.len() ==> entry_sym(g, #[trigger] sp[q]) == syms[q]
}

/// No split at all chains across `[from, to)` while covering `syms`.
pub open spec fn no_split(
    g: Grammar,
    lookup: Seq<Seq<EarleyItem>>,
    from: int,
    to: int,
    syms: Seq<usize>,
) -> bool {
    forall|sp: Seq<SplitEntry>|
        !(#[trigger] chain_ok(g, lookup, sp, from, to) && split_matches(g, sp, syms))
}

/// The split search itself, as a function: covers `body[k..]` across
/// `[from, to)`. A terminal body symbol consumes one position; a
/// non-terminal is covered by trying the edges at the current position in
/// index order, via `fs_try`. This pins which chain the search finds: the
/// first one in that order.
pub open spec fn fs_spec(
    g: Grammar,
    lookup: Seq<Seq<EarleyItem>>,
    from: int,
    to: int,
    body: Seq<usize>,
    k: int,
) -> Option<Seq<SplitEntry>>
    decreases body.len() - k, 1int, 0int,
{
    if k < 0 || k >= body.len() {
        if from == to {
            Some(Seq::<SplitEntry>::empty())
        } else {
            None
        }
    } else if g.symbols@[body[k] as int].is_terminal {
        if from < to {
            match fs_spec(g, lookup, from + 1, to, body, k + 1) {
                Some(v) => Some(seq![SplitEntry::Leaf(body[k])] + v),
                None => None,
            }
        } else {
            None
        }
    } else {
        fs_try(g, lookup, from, to, body, k, 0)
    }
}

/// The candidate loop of the split search: tries the edges at `from` from
/// index `j` on, in order, keeping the first that is headed by `body[k]`,
/// ends by `to`, and lets the rest of the body chain.
pub open spec fn fs_try(
    g: Grammar,
    lookup: Seq<Seq<EarleyItem>>,
    from: int,
    to: int,
    body: Seq<usize>,
    k: int,
    j: int,
) -> Option<Seq<SplitEntry>>
    decreases body.len() - k, 0int, lookup[from].len() - j,
{
    if !(0 <= k < body.len()) || j < 0 || !(0 <= from < lookup.len()) || j >= lookup[
        from].len() {
        None
    } else {
        let e = lookup[from][j];
        if e.start <= to && g.rules@[e.rule_id as int].start == body[k] {
            match fs_spec(g, lookup, e.start as int, to, body, k + 1) {
                Some(v) => Some(seq![SplitEntry::Edge(e)] + v),
                None => fs_try(g, lookup, from, to, body, k, j + 1),
            }
        } else {
            fs_try(g, lookup, from, to, body, k, j + 1)
        }
    }
}

/// One leaf shape per body symbol.
pub open spec fn leaf_forest(body: Seq<usize>) -> Seq<SpecTree> {
    Seq::new(body.len(), |q: int| spec_leaf(body[q]))
}

/// Tree reconstruction itself, as a function: a terminal root is a leaf at
/// once; otherwise the candidate edges at `from` are tried in index order
/// via `ba_try`. This pins the extractor completely: which derivation comes
/// out, and that failure means the bounded search found none.
pub open spec fn ba_spec(
    g: Grammar,
    lookup: Seq<Seq<EarleyItem>>,
    from: int,
    to: int,
    root: usize,
    fuel: int,
) -> Option<SpecTree>
    decreases fuel, 2int, 0int,
{
    if g.symbols@[root as int].is_terminal {
        Some(spec_leaf(root))
    } else if !(0 <= from < lookup.len()) {
        None
    } else {
        ba_try(g, lookup, from, to, root, fuel, 0)
    }
}

/// The candidate loop of reconstruction: among the edges at `from`, in index
/// order from `j` on, the first edge ending exactly at `to` and headed by
/// `root` whose rule builds — wholly terminal bodies directly, others
/// through split search and child builds — yields the node; on failure the
/// search backtracks to the next candidate.
pub open spec fn ba_try(
    g: Grammar,
    lookup: Seq<Seq<EarleyItem>>,
    from: int,
    to: int,
    root: usize,
    fuel: int,
    j: int,
) -> Option<SpecTree>
    decreases fuel, 1int, lookup[from].len() - j,
{
    if j < 0 || !(0 <= from < lookup.len()) || j >= lookup[from].len() {
        None
    } else {
        let e = lookup[from][j];
        if e.start == to && g.rules@[e.rule_id as int].start == root {
            if body_all_terminal(g, e.rule_id as int) {
                Some(SpecTree { value: root, children: leaf_forest(g.rule_body(e.rule_id as int)) })
            } else {
                match fs_spec(g, lookup, from, to, g.rule_body(e.rule_id as int), 0) {
                    Some(sp) => match bai_spec(g, lookup, from, sp, fuel) {
                        Some(ch) => Some(SpecTree { value: root, children: ch }),
                        None => ba_try(g, lookup, from, to, root, fuel, j + 1),
                    },
                    None => ba_try(g, lookup, from, to, root, fuel, j + 1),
                }
            }
        } else {
            ba_try(g, lookup, from, to, root, fuel, j + 1)
        }
    }
}

/// Child building over a split, as a function: fails when the recursion
/// budget is spent, else builds one shape per entry via `bai_go`.
pub open spec fn bai_spec(
    g: Grammar,
    lookup: Seq<Seq<EarleyItem>>,
    from: int,
    sp: Seq<SplitEntry>,
    fuel: int,
) -> Option<Seq<SpecTree>>
    decreases fuel, 0int, sp.len() + 1,
{
    if fuel <= 0 {
        None
    } else {
        bai_go(g, lookup, from, sp, 0, fuel)
    }
}

/// Left-to-right child building from entry `idx` at position `pos`: a leaf
/// entry yields a leaf shape over one position; an edge entry yields the
/// reconstruction of its rule's head over the edge's span; any child
/// failure fails the whole split.
pub open spec fn bai_go(
    g: Grammar,
    lookup: Seq<Seq<EarleyItem>>,
    pos: int,
    sp: Seq<SplitEntry>,
    idx: int,
    fuel: int,
) -> Option<Seq<SpecTree>>
    decreases fuel, 0int, sp.len() - idx,
{
    if fuel <= 0 {
        None
    } else if idx < 0 || idx >= sp.len() {
        Some(Seq::<SpecTree>::empty())
    } else {
        match sp[idx] {
            SplitEntry::Leaf(s) => match bai_go(g, lookup, pos + 1, sp, idx + 1, fuel) {
                Some(rest) => Some(seq![spec_leaf(s)] + rest),
                None => None,
            },
            SplitEntry::Edge(e) => match ba_spec(
                g,
                lookup,
                pos,
                e.start as int,
                g.rules@[e.rule_id as int].start,
                fuel - 1,
            ) {
                Some(ch) => match bai_go(g, lookup, e.start as int, sp, idx + 1, fuel) {
                    Some(rest) => Some(seq![ch] + rest),
                    None => None,
                },
                None => None,
            },
        }
    }
}

/// An item contained in the edge index at origin `o` is a valid edge there.
pub proof fn lemma_contained_edge_ok(
    g: Grammar,
    lookup: Seq<Seq<EarleyItem>>,
    n: int,
    o: int,
    e: EarleyItem,
)
    requires
        edges_wf(g, lookup, n),
        0 <= o < n,
        lookup[o].contains(e),
    ensures
        edge_ok(g, e, o, n),
{
    let k = choose|k: int| 0 <= k < lookup[o].len() && lookup[o][k] == e;
    assert(edge_ok(g, lookup[o][k], o, n));
}

/// Whether every body symbol of rule `rule_id` is terminal.
fn rule_body_all_terminal(gram: &Grammar, rule_id: usize) -> (r: bool)
    requires
        rule_id < gram.rules@.len(),
        forall|j: int|
            0 <= j < gram.rule_body(rule_id as int).len()
                ==> (#[trigger] gram.rule_body(rule_id as int)[j]) < gram.symbols@.len(),
    ensures
        r == body_all_terminal(*gram, rule_id as int),
{
    let body = &gram.rules[rule_id].symbols;
    let mut q: usize = 0;
    while q < body.len()
        invariant
            q <= body@.len(),
            body@ == gram.rule_body(rule_id as int),
            rule_id < gram.rules@.len(),
            forall|j: int|
                0 <= j < gram.rule_body(rule_id as int).len()
                    ==> (#[trigger] gram.rule_body(rule_id as int)[j]) < gram.symbols@.len(),
            forall|j: int|
                0 <= j < q ==> gram.symbols@[(#[trigger] body@[j]) as int].is_terminal,
        decreases body@.len() - q,
    {
        if !gram.symbols[body[q]].is_terminal {
            return false;
        }
        q += 1;
    }
    true
}

/// Searches for a split of the body suffix `symbols[k..]` across
/// `[from, to)`: a terminal symbol consumes one position; a non-terminal is
/// covered by some edge of the index at the current position, ending by
/// `to`, the edges tried latest-ending first; the search backtracks on
/// failure. A found split is returned in body order.
#[verifier::loop_isolation(false)]
#[verifier::rlimit(30)]
pub fn find_split(
    from: usize,
    to: usize,
    symbols: &Vec<usize>,
    k: usize,
    lookup_sets: &Vec<Vec<EarleyItem>>,
    gram: &Grammar,
) -> (r: Option<Vec<SplitEntry>>)
    requires
        gram.wf(),
        edges_wf(*gram, set_views(lookup_sets@), lookup_sets@.len() as int),
        from <= to < lookup_sets@.len(),
        k <= symbols@.len(),
        forall|j: int|
            0 <= j < symbols@.len() ==> (#[trigger] symbols@[j]) < gram.symbols@.len(),
    ensures
        match r {
            Some(sp) => {
                &&& fs_spec(
                    *gram,
                    set_views(lookup_sets@),
                    from as int,
                    to as int,
                    symbols@,
                    k as int,
                ) == Some(sp@)
                &&& chain_ok(*gram, set_views(lookup_sets@), sp@, from as int, to as int)
                &&& split_matches(*gram, sp@, symbols@.skip(k as int))
            },
            None => {
                &&& fs_spec(
                    *gram,
                    set_views(lookup_sets@),
                    from as int,
                    to as int,
                    symbols@,
                    k as int,
                ) is None
                &&& no_split(
                    *gram,
                    set_views(lookup_sets@),
                    from as int,
                    to as int,
                    symbols@.skip(k as int),
                )
            },
        },
    decreases symbols@.len() - k,
{
    let ghost lookupv = set_views(lookup_sets@);
    let ghost syms = symbols@.skip(k as int);
    if k == symbols.len() {
        if from == to {
            let sp: Vec<SplitEntry> = Vec::new();
            proof {
                assert(sp@ =~= Seq::<SplitEntry>::empty());
                assert(symbols@.skip(k as int) =~= Seq::<usize>::empty());
                assert(fs_spec(*gram, lookupv, from as int, to as int, symbols@, k as int)
                    == Some(sp@));
            }
            return Some(sp);
        }
        proof {
            assert forall|sp: Seq<SplitEntry>|
                !(#[trigger] chain_ok(*gram, lookupv, sp, from as int, to as int)
                    && split_matches(*gram, sp, syms)) by {
                if split_matches(*gram, sp, syms) {
                    assert(sp.len() == 0);
                }
            }
        }
        return None;
    }
    let sym = symbols[k];
    proof {
        assert(syms[0] == sym);
        assert(syms.drop_first() =~= symbols@.skip(k + 1));
    }
    if gram.symbols[sym].is_terminal {
        // A terminal body symbol consumes exactly one input position. An
        // edge can never cover it: edges finish rules, and rule heads are
        // non-terminal.
        if from < to {
            match find_split(from + 1, to, symbols, k + 1, lookup_sets, gram) {
                Some(mut v) => {
                    let ghost rest = v@;
                    v.insert(0, SplitEntry::Leaf(sym));
                    proof {
                        assert(v@.drop_first() =~= rest);
                        assert(v@ =~= seq![SplitEntry::Leaf(sym)] + rest);
                        assert(chain_ok(*gram, lookupv, v@, from as int, to as int));
                        assert(split_matches(*gram, v@, symbols@.skip(k as int)));
                        assert(fs_spec(*gram, lookupv, from as int, to as int, symbols@, k as int)
                            == Some(v@));
                    }
                    return Some(v);
                },
                None => {
                    proof {
                        lemma_no_split_terminal_head(
                            *gram,
                            lookupv,
                            lookup_sets@.len() as int,
                            from as int,
                            to as int,
                            syms,
                        );
                        assert(fs_spec(*gram, lookupv, from as int, to as int, symbols@,
                            k as int) is None);
                    }
                    return None;
                },
            }
        }
        proof {
            lemma_no_split_terminal_head(
                *gram,
                lookupv,
                lookup_sets@.len() as int,
                from as int,
                to as int,
                syms,
            );
            assert(fs_spec(*gram, lookupv, from as int, to as int, symbols@, k as int)
                is None);
        }
        return None;
    }
    // A non-terminal body symbol: try each edge at `from` headed by it and
    // ending by `to`, in index order.
    let edges = &lookup_sets[from];
    let mut j: usize = 0;
    while j < edges.len()
        invariant
            j <= edges@.len(),
            edges@ == lookupv[from as int],
            fs_try(*gram, lookupv, from as int, to as int, symbols@, k as int, j as int)
                == fs_try(*gram, lookupv, from as int, to as int, symbols@, k as int, 0),
            forall|jj: int|
                0 <= jj < j && (#[trigger] edges@[jj]).start <= to && gram.rules@[edges@[
                    jj].rule_id as int].start == sym ==> no_split(
                    *gram,
                    lookupv,
                    edges@[jj].start as int,
                    to as int,
                    symbols@.skip(k + 1),
                ),
        decreases edges@.len() - j,
    {
        let e = edges[j];
        proof {
            assert(lookupv[from as int].contains(e));
            lemma_contained_edge_ok(
                *gram,
                lookupv,
                lookup_sets@.len() as int,
                from as int,
                e,
            );
        }
        if e.start <= to && gram.rules[e.rule_id].start == sym {
            match find_split(e.start, to, symbols, k + 1, lookup_sets, gram) {
                Some(mut v) => {
                    let ghost rest = v@;
                    v.insert(0, SplitEntry::Edge(e));
                    proof {
                        assert(v@.drop_first() =~= rest);
                        assert(v@ =~= seq![SplitEntry::Edge(e)] + rest);
                        assert(chain_ok(*gram, lookupv, v@, from as int, to as int));
                        assert(split_matches(*gram, v@, symbols@.skip(k as int)));
                        assert(fs_try(*gram, lookupv, from as int, to as int, symbols@,
                            k as int, j as int) == Some(v@));
                        assert(fs_spec(*gram, lookupv, from as int, to as int, symbols@,
                            k as int) == Some(v@));
                    }
                    return Some(v);
                },
                None => {
                    proof {
                        assert(fs_try(*gram, lookupv, from as int, to as int, symbols@,
                            k as int, j as int) == fs_try(*gram, lookupv, from as int,
                            to as int, symbols@, k as int, j + 1));
                    }
                },
            }
        } else {
            proof {
                assert(fs_try(*gram, lookupv, from as int, to as int, symbols@, k as int,
                    j as int) == fs_try(*gram, lookupv, from as int, to as int, symbols@,
                    k as int, j + 1));
            }
        }
        j += 1;
    }
    proof {
        assert(fs_try(*gram, lookupv, from as int, to as int, symbols@, k as int, j as int)
            is None);
        assert(fs_spec(*gram, lookupv, from as int, to as int, symbols@, k as int) is None);
        assert forall|sp: Seq<SplitEntry>|
            !(#[trigger] chain_ok(*gram, lookupv, sp, from as int, to as int)
                && split_matches(*gram, sp, syms)) by {
            if chain_ok(*gram, lookupv, sp, from as int, to as int) && split_matches(
                *gram,
                sp,
                syms,
            ) {
                assert(sp.len() == syms.len() >= 1);
                assert(entry_sym(*gram, sp[0]) == sym);
                match sp[0] {
                    SplitEntry::Leaf(l) => {
                        // The leaf's symbol would be `sym`, a non-terminal,
                        // but a leaf entry covers a terminal.
                        assert(gram.is_term(l as int) && l == sym);
                        assert(false);
                    },
                    SplitEntry::Edge(e0) => {
                        assert(lookupv[from as int].contains(e0));
                        let jj = choose|jj: int|
                            0 <= jj < lookupv[from as int].len() && lookupv[from as int][jj]
                                == e0;
                        assert(edges@[jj] == e0);
                        assert(gram.rules@[e0.rule_id as int].start == sym);
                        assert(e0.start <= to);
                        assert(no_split(
                            *gram,
                            lookupv,
                            e0.start as int,
                            to as int,
                            symbols@.skip(k + 1),
                        ));
                        assert(chain_ok(
                            *gram,
                            lookupv,
                            sp.drop_first(),
                            e0.start as int,
                            to as int,
                        ));
                        assert(split_matches(*gram, sp.drop_first(), symbols@.skip(k + 1)));
                        assert(false);
                    },
                }
            }
        }
    }
    None
}

/// When the first remaining body symbol is terminal, no split whose first
/// entry is an edge can cover it, and a leaf entry needs room: across an
/// empty span, or after a failed search past the leaf, there is no split.
proof fn lemma_no_split_terminal_head(
    g: Grammar,
    lookup: Seq<Seq<EarleyItem>>,
    n: int,
    from: int,
    to: int,
    syms: Seq<usize>,
)
    requires
        g.wf(),
        edges_wf(g, lookup, n),
        0 <= from < n,
        syms.len() >= 1,
        syms[0] < g.symbols@.len(),
        g.is_term(syms[0] as int),
        from < to ==> no_split(g, lookup, from + 1, to, syms.drop_first()),
    ensures
        no_split(g, lookup, from, to, syms),
{
    assert forall|sp: Seq<SplitEntry>|
        !(#[trigger] chain_ok(g, lookup, sp, from, to) && split_matches(g, sp, syms)) by {
        if chain_ok(g, lookup, sp, from, to) && split_matches(g, sp, syms) {
            assert(sp.len() == syms.len() >= 1);
            assert(entry_sym(g, sp[0]) == syms[0]);
            match sp[0] {
                SplitEntry::Leaf(l) => {
                    assert(from < to);
                    assert(chain_ok(g, lookup, sp.drop_first(), from + 1, to));
                    assert(split_matches(g, sp.drop_first(), syms.drop_first()));
                    assert(false);
                },
                SplitEntry::Edge(e0) => {
                    // The edge's rule head equals `syms[0]`, yet heads are
                    // non-terminal and `syms[0]` is terminal.
                    lemma_contained_edge_ok(g, lookup, n, from, e0);
                    assert(g.rule_head(e0.rule_id as int) == g.rules@[e0.rule_id as int].start
                        as int);
                    assert(!g.is_term(g.rule_head(e0.rule_id as int)));
                    assert(false);
                },
            }
        }
    }
}

/// The loop relation of child building: what `bai_go` yields from the start
/// equals the shapes built so far (`acc`) followed by whatever it yields
/// from the current entry and position on.
pub open spec fn bai_cont(
    g: Grammar,
    lookup: Seq<Seq<EarleyItem>>,
    sp: Seq<SplitEntry>,
    fuel: int,
    from: int,
    pos: int,
    idx: int,
    acc: Seq<SpecTree>,
) -> bool {
    bai_go(g, lookup, from, sp, 0, fuel) == (match bai_go(g, lookup, pos, sp, idx, fuel) {
        Some(rest) => Some(acc + rest),
        None => None,
    })
}

/// Builds one child tree per split entry, left to right: a leaf for each
/// terminal entry, a recursively reconstructed subtree for each edge. Fails
/// if any child fails or the recursion budget is spent.
#[verifier::loop_isolation(false)]
pub fn build_ast_internal(
    from: usize,
    split: &Vec<SplitEntry>,
    lookup_sets: &Vec<Vec<EarleyItem>>,
    gram: &Grammar,
    to: usize,
    fuel: usize,
) -> (r: Option<Vec<ASTNode>>)
    requires
        gram.wf(),
        edges_wf(*gram, set_views(lookup_sets@), lookup_sets@.len() as int),
        from <= to < lookup_sets@.len(),
        chain_ok(*gram, set_views(lookup_sets@), split@, from as int, to as int),
    ensures
        match r {
            Some(ch) => {
                &&& ch@.len() == split@.len()
                &&& leaf_count_seq(ch@) == to - from
                &&& forall|q: int| 0 <= q < ch@.len() ==> tree_ok(*gram, #[trigger] ch@[q])
                &&& forall|q: int|
                    0 <= q < ch@.len() ==> (#[trigger] ch@[q]).value == entry_sym(
                        *gram,
                        split@[q],
                    )
                &&& bai_spec(
                    *gram,
                    set_views(lookup_sets@),
                    from as int,
                    split@,
                    fuel as int,
                ) == Some(forest_view(ch@))
            },
            None => bai_spec(
                *gram,
                set_views(lookup_sets@),
                from as int,
                split@,
                fuel as int,
            ) is None,
        },
    decreases fuel, 0int,
{
    let ghost lookupv = set_views(lookup_sets@);
    if fuel == 0 {
        proof {
            assert(bai_spec(*gram, lookupv, from as int, split@, fuel as int) is None);
        }
        return None;
    }
    proof {
        assert(split@.skip(0) =~= split@);
        assert(forest_view(Seq::<ASTNode>::empty()) =~= Seq::<SpecTree>::empty());
        if bai_go(*gram, lookupv, from as int, split@, 0, fuel as int) is Some {
            assert(Seq::<SpecTree>::empty() + bai_go(
                *gram,
                lookupv,
                from as int,
                split@,
                0,
                fuel as int,
            )->Some_0 =~= bai_go(*gram, lookupv, from as int, split@, 0, fuel as int)->Some_0);
        }
    }
    let mut ast_children: Vec<ASTNode> = Vec::new();
    let mut inner_from = from;
    let mut idx: usize = 0;
    while idx < split.len()
        invariant
            idx <= split@.len(),
            ast_children@.len() == idx,
            from <= inner_from <= to,
            chain_ok(*gram, lookupv, split@.skip(idx as int), inner_from as int, to as int),
            fuel >= 1,
            bai_cont(
                *gram,
                lookupv,
                split@,
                fuel as int,
                from as int,
                inner_from as int,
                idx as int,
                forest_view(ast_children@),
            ),
            leaf_count_seq(ast_children@) == inner_from - from,
            forall|q: int| 0 <= q < idx ==> tree_ok(*gram, #[trigger] ast_children@[q]),
            forall|q: int|
                0 <= q < idx ==> (#[trigger] ast_children@[q]).value == entry_sym(
                    *gram,
                    split@[q],
                ),
        decreases split@.len() - idx,
    {
        proof {
            assert(split@.skip(idx as int)[0] == split@[idx as int]);
            assert(split@.skip(idx as int).drop_first() =~= split@.skip(idx + 1));
        }
        let ghost pos0 = inner_from as int;
        let ghost ch_before = ast_children@;
        match split[idx] {
            SplitEntry::Leaf(s) => {
                let child = ASTNode { children: Vec::new(), value: s };
                proof {
                    assert(child.children@.len() == 0);
                    assert(tree_ok(*gram, child));
                    assert(leaf_count(child) == 1);
                }
                ast_children.push(child);
                proof {
                    assert(ast_children@.drop_last() =~= ch_before);
                    assert(leaf_count_seq(ast_children@) == leaf_count_seq(ch_before) + 1);
                    assert(tree_view(child).children =~= spec_leaf(s).children);
                    assert(tree_view(child) == spec_leaf(s));
                    assert(forest_view(ast_children@) =~= forest_view(ch_before).push(
                        spec_leaf(s),
                    ));
                    let g1 = bai_go(*gram, lookupv, pos0 + 1, split@, idx + 1, fuel as int);
                    assert(bai_go(*gram, lookupv, pos0, split@, idx as int, fuel as int) == (
                    match g1 {
                        Some(rest) => Some(seq![spec_leaf(s)] + rest),
                        None => None,
                    }));
                    if g1 is Some {
                        assert(forest_view(ch_before) + (seq![spec_leaf(s)] + g1->Some_0)
                            =~= forest_view(ast_children@) + g1->Some_0);
                    }
                }
                inner_from += 1;
                proof {
                    assert(bai_cont(*gram, lookupv, split@, fuel as int, from as int,
                        inner_from as int, idx + 1, forest_view(ast_children@)));
                }
            },
            SplitEntry::Edge(e) => {
                proof {
                    lemma_contained_edge_ok(
                        *gram,
                        lookupv,
                        lookup_sets@.len() as int,
                        inner_from as int,
                        e,
                    );
                }
                let child_sym = gram.rules[e.rule_id].start;
                proof {
                    assert(gram.rule_head(e.rule_id as int) == child_sym as int);
                    assert(child_sym < gram.symbols@.len());
                    assert(!gram.is_term(child_sym as int));
                }
                match build_ast(inner_from, e.start, child_sym, lookup_sets, gram, fuel - 1) {
                    Some(sub_tree) => {
                        proof {
                            assert(ast_children@.push(sub_tree).drop_last() =~= ast_children@);
                        }
                        ast_children.push(sub_tree);
                        proof {
                            assert(forest_view(ast_children@) =~= forest_view(ch_before).push(
                                tree_view(sub_tree),
                            ));
                            let g1 = bai_go(*gram, lookupv, e.start as int, split@, idx + 1,
                                fuel as int);
                            assert(ba_spec(*gram, lookupv, pos0, e.start as int,
                                gram.rules@[e.rule_id as int].start, fuel - 1) == Some(
                                tree_view(sub_tree),
                            ));
                            assert(bai_go(*gram, lookupv, pos0, split@, idx as int,
                                fuel as int) == (match g1 {
                                Some(rest) => Some(seq![tree_view(sub_tree)] + rest),
                                None => None,
                            }));
                            if g1 is Some {
                                assert(forest_view(ch_before) + (seq![tree_view(sub_tree)]
                                    + g1->Some_0) =~= forest_view(ast_children@)
                                    + g1->Some_0);
                            }
                        }
                        inner_from = e.start;
                        proof {
                            assert(bai_cont(*gram, lookupv, split@, fuel as int, from as int,
                                inner_from as int, idx + 1, forest_view(ast_children@)));
                        }
                    },
                    None => {
                        proof {
                            assert(ba_spec(*gram, lookupv, pos0, e.start as int,
                                gram.rules@[e.rule_id as int].start, fuel - 1) is None);
                            assert(bai_go(*gram, lookupv, pos0, split@, idx as int,
                                fuel as int) is None);
                            assert(bai_go(*gram, lookupv, from as int, split@, 0,
                                fuel as int) is None);
                            assert(bai_spec(*gram, lookupv, from as int, split@,
                                fuel as int) is None);
                        }
                        return None;
                    },
                }
            },
        }
        idx += 1;
    }
    proof {
        assert(split@.skip(split@.len() as int).len() == 0);
        assert(inner_from == to);
        assert(bai_go(*gram, lookupv, inner_from as int, split@, split@.len() as int,
            fuel as int) == Some(Seq::<SpecTree>::empty()));
        assert(forest_view(ast_children@) + Seq::<SpecTree>::empty() =~= forest_view(
            ast_children@,
        ));
        assert(bai_spec(*gram, lookupv, from as int, split@, fuel as int) == Some(
            forest_view(ast_children@),
        ));
    }
    Some(ast_children)
}

/// Reconstructs one derivation tree for `root_symbol` across `[from, to)`.
/// A terminal root becomes a leaf at once. Otherwise the candidate edges at
/// `from` ending exactly at `to` and headed by the root are tried in index
/// order: a rule whose body is wholly terminal is built directly; any other
/// is built through split search, backtracking to the next candidate on
/// failure. `fuel` bounds the recursion depth defensively for grammars whose
/// unit-rule cycles would otherwise recurse forever; the first derivation
/// found under this order is returned.
#[verifier::loop_isolation(false)]
pub fn build_ast(
    from: usize,
    to: usize,
    root_symbol: usize,
    lookup_sets: &Vec<Vec<EarleyItem>>,
    gram: &Grammar,
    fuel: usize,
) -> (r: Option<ASTNode>)
    requires
        gram.wf(),
        edges_wf(*gram, set_views(lookup_sets@), lookup_sets@.len() as int),
        from <= to < lookup_sets@.len(),
        root_symbol < gram.symbols@.len(),
    ensures
        match r {
            Some(t) => {
                &&& tree_ok(*gram, t)
                &&& t.value == root_symbol
                &&& !gram.is_term(root_symbol as int) ==> leaf_count(t) == to - from
                &&& ba_spec(
                    *gram,
                    set_views(lookup_sets@),
                    from as int,
                    to as int,
                    root_symbol,
                    fuel as int,
                ) == Some(tree_view(t))
            },
            None => ba_spec(
                *gram,
                set_views(lookup_sets@),
                from as int,
                to as int,
                root_symbol,
                fuel as int,
            ) is None,
        },
    decreases fuel, 1int,
{
    let ghost lookupv = set_views(lookup_sets@);
    if gram.symbols[root_symbol].is_terminal {
        let node = ASTNode { children: Vec::new(), value: root_symbol };
        proof {
            assert(tree_view(node).children =~= spec_leaf(root_symbol).children);
            assert(tree_view(node) == spec_leaf(root_symbol));
            assert(ba_spec(*gram, lookupv, from as int, to as int, root_symbol, fuel as int)
                == Some(tree_view(node)));
        }
        return Some(node);
    }
    let edges = &lookup_sets[from];
    let mut j: usize = 0;
    while j < edges.len()
        invariant
            j <= edges@.len(),
            edges@ == lookupv[from as int],
            ba_try(*gram, lookupv, from as int, to as int, root_symbol, fuel as int, j as int)
                == ba_try(*gram, lookupv, from as int, to as int, root_symbol, fuel as int, 0),
        decreases edges@.len() - j,
    {
        let edge = edges[j];
        proof {
            assert(lookupv[from as int].contains(edge));
            lemma_contained_edge_ok(
                *gram,
                lookupv,
                lookup_sets@.len() as int,
                from as int,
                edge,
            );
        }
        if edge.start == to && gram.rules[edge.rule_id].start == root_symbol {
            let ghost rid = edge.rule_id as int;
            if rule_body_all_terminal(gram, edge.rule_id) {
                // Fast path: a wholly terminal body spans exactly its own
                // length, one leaf per body symbol.
                let body = &gram.rules[edge.rule_id].symbols;
                let mut children: Vec<ASTNode> = Vec::new();
                let mut q: usize = 0;
                while q < body.len()
                    invariant
                        q <= body@.len(),
                        body@ == gram.rule_body(rid),
                        0 <= rid < gram.rules@.len(),
                        children@.len() == q,
                        leaf_count_seq(children@) == q,
                        forall|w: int|
                            0 <= w < q ==> tree_ok(*gram, #[trigger] children@[w]),
                        forall|w: int|
                            0 <= w < q ==> (#[trigger] children@[w]).value == body@[w],
                        forall|w: int|
                            0 <= w < q ==> (#[trigger] children@[w]).children@.len() == 0,
                    decreases body@.len() - q,
                {
                    let terminal = body[q];
                    let leaf = ASTNode { children: Vec::new(), value: terminal };
                    proof {
                        assert(gram.symbols@[terminal as int].is_terminal);
                        assert(tree_ok(*gram, leaf));
                        assert(children@.push(leaf).drop_last() =~= children@);
                    }
                    children.push(leaf);
                    q += 1;
                }
                let node = ASTNode { children, value: root_symbol };
                proof {
                    assert(node.children@.len() == gram.rule_body(rid).len() >= 1);
                    assert(child_values(node.children@) =~= gram.rule_body(rid));
                    assert(gram.rule_head(rid) == root_symbol);
                    lemma_children_facts(*gram, node, node.children@.len() as int);
                    assert(node.children@.take(node.children@.len() as int) =~= node.children@);
                    assert(leaf_count(node) == gram.rule_body(rid).len());
                    assert(edge.start == from + gram.rule_body(rid).len());
                    assert(tree_ok(*gram, node));
                    assert forall|w: int| 0 <= w < node.children@.len() implies tree_view(
                        node.children@[w],
                    ) == spec_leaf(gram.rule_body(rid)[w]) by {
                        assert(tree_view(node.children@[w]).children =~= spec_leaf(
                            gram.rule_body(rid)[w],
                        ).children);
                    }
                    assert(tree_view(node).children =~= leaf_forest(gram.rule_body(rid)));
                    assert(tree_view(node) == SpecTree {
                        value: root_symbol,
                        children: leaf_forest(gram.rule_body(rid)),
                    });
                    assert(ba_try(*gram, lookupv, from as int, to as int, root_symbol,
                        fuel as int, j as int) == Some(tree_view(node)));
                    assert(ba_spec(*gram, lookupv, from as int, to as int, root_symbol,
                        fuel as int) == Some(tree_view(node)));
                }
                return Some(node);
            }
            match find_split(from, to, &gram.rules[edge.rule_id].symbols, 0, lookup_sets, gram) {
                Some(split) => {
                    proof {
                        assert(gram.rule_body(rid).skip(0) =~= gram.rule_body(rid));
                    }
                    match build_ast_internal(from, &split, lookup_sets, gram, to, fuel) {
                        Some(ast_children) => {
                            let node = ASTNode { children: ast_children, value: root_symbol };
                            proof {
                                assert(node.children@.len() == gram.rule_body(rid).len() >= 1);
                                assert(child_values(node.children@) =~= gram.rule_body(rid));
                                assert(gram.rule_head(rid) == root_symbol);
                                lemma_children_facts(*gram, node, node.children@.len() as int);
                                assert(node.children@.take(node.children@.len() as int)
                                    =~= node.children@);
                                assert(leaf_count(node) == to - from);
                                assert(tree_ok(*gram, node));
                                assert(tree_view(node).children =~= forest_view(
                                    node.children@,
                                ));
                                assert(tree_view(node) == SpecTree {
                                    value: root_symbol,
                                    children: forest_view(node.children@),
                                });
                                assert(ba_try(*gram, lookupv, from as int, to as int,
                                    root_symbol, fuel as int, j as int) == Some(tree_view(
                                    node,
                                )));
                                assert(ba_spec(*gram, lookupv, from as int, to as int,
                                    root_symbol, fuel as int) == Some(tree_view(node)));
                            }
                            return Some(node);
                        },
                        None => {
                            proof {
                                assert(ba_try(*gram, lookupv, from as int, to as int,
                                    root_symbol, fuel as int, j as int) == ba_try(*gram,
                                    lookupv, from as int, to as int, root_symbol,
                                    fuel as int, j + 1));
                            }
                        },
                    }
                },
                None => {
                    proof {
                        assert(ba_try(*gram, lookupv, from as int, to as int, root_symbol,
                            fuel as int, j as int) == ba_try(*gram, lookupv, from as int,
                            to as int, root_symbol, fuel as int, j + 1));
                    }
                },
            }
        } else {
            proof {
                assert(ba_try(*gram, lookupv, from as int, to as int, root_symbol,
                    fuel as int, j as int) == ba_try(*gram, lookupv, from as int, to as int,
                    root_symbol, fuel as int, j + 1));
            }
        }
        j += 1;
    }
    proof {
        assert(ba_try(*gram, lookupv, from as int, to as int, root_symbol, fuel as int,
            j as int) is None);
        assert(ba_spec(*gram, lookupv, from as int, to as int, root_symbol, fuel as int)
            is None);
    }
    None
}

/// Extraction failure: no edge and split combination reconstructs the
/// requested span under the search policy.
#[derive(Debug, PartialEq, Eq, Structural, Clone, Copy)]
pub struct AstReconstructionFailure;

/// Whether one item certifies acceptance: complete, headed by the start
/// symbol, and originating at position 0.
pub open spec fn accept_item(g: Grammar, it: EarleyItem) -> bool {
    &&& item_complete(g, it)
    &&& g.rules@[it.rule_id as int].start == g.start
    &&& it.start == 0
}

/// Whether the set holds an accepting item at or after index `j`.
pub open spec fn accepts_from(g: Grammar, s: Seq<EarleyItem>, j: int) -> bool
    decreases s.len() - j,
{
    if j < 0 || j >= s.len() {
        false
    } else {
        accept_item(g, s[j]) || accepts_from(g, s, j + 1)
    }
}

/// Whether state set `n` of the chart accepts: it holds a complete item
/// headed by the start symbol with origin 0. With `n` the count of real
/// tokens, this is the recognizer's acceptance verdict.
pub open spec fn chart_accepts(g: Grammar, sets: Seq<Seq<EarleyItem>>, n: int) -> bool {
    accepts_from(g, sets[n], 0)
}

/// `accepts_from` says exactly that some item at or after `j` is an
/// accepting item.
pub proof fn lemma_accepts_iff_exists(g: Grammar, s: Seq<EarleyItem>, j: int)
    requires
        0 <= j,
    ensures
        accepts_from(g, s, j) <==> exists|k: int|
            j <= k < s.len() && accept_item(g, #[trigger] s[k]),
    decreases s.len() - j,
{
    if j < s.len() {
        lemma_accepts_iff_exists(g, s, j + 1);
        if accept_item(g, s[j]) {
            assert(j <= j < s.len() && accept_item(g, s[j]));
        }
    }
}

/// Whether the chart accepts the input of `n` real tokens: state set `n`
/// holds a complete item headed by the start symbol with origin 0.
#[verifier::loop_isolation(false)]
pub fn is_accepted(gram: &Grammar, chart: &Vec<Vec<EarleyItem>>, n: usize) -> (r: bool)
    requires
        gram.wf(),
        n < chart@.len(),
        sets_ok(*gram, set_views(chart@)),
    ensures
        r == chart_accepts(*gram, set_views(chart@), n as int),
{
    let ghost sets = set_views(chart@);
    let target = &chart[n];
    proof {
        assert(target@ == sets[n as int]);
        assert(set_ok(*gram, sets[n as int], n as int));
    }
    let mut k: usize = 0;
    while k < target.len()
        invariant
            k <= target@.len(),
            !accepts_from(*gram, target@, 0) || accepts_from(*gram, target@, k as int),
        decreases target@.len() - k,
    {
        let it = target[k];
        proof {
            assert(item_ok(*gram, it, n as int));
        }
        if it.is_complete(gram) && gram.rules[it.rule_id].start == gram.start && it.start == 0 {
            proof {
                assert(accept_item(*gram, it));
                lemma_accepts_iff_exists(*gram, target@, 0);
                assert(0 <= k < target@.len() && accept_item(*gram, target@[k as int]));
            }
            return true;
        }
        k += 1;
    }
    false
}

/// The extraction recursion budget for a chart of `n` state sets over a
/// grammar of `r` rules, saturating at `usize::MAX`: ample for any
/// non-cyclic derivation, while bounding grammars whose unit-rule cycles
/// admit unboundedly deep derivations.
pub open spec fn extraction_fuel(n: int, r: int) -> int {
    let sat = if r + 1 <= usize::MAX {
        r + 1
    } else {
        usize::MAX as int
    };
    if n * sat <= usize::MAX {
        n * sat
    } else {
        usize::MAX as int
    }
}

/// Runs the full parse: builds the chart, derives the edge index, and
/// extracts one derivation tree for the start symbol across the real tokens
/// (the trailing end-of-input token only closes the last state set). A
/// returned tree is a derivation tree of the grammar, rooted at the start
/// symbol, with exactly one terminal leaf per real token; which tree comes
/// out, and that failure means the bounded search found none, is pinned by
/// `ba_spec` over the chart's edge index — a pure function of the inputs.
pub fn parse(gram: &Grammar, tokens: &Vec<Token>) -> (r: Result<
    ASTNode,
    AstReconstructionFailure,
>)
    requires
        gram.wf(),
        tokens@.len() >= 1,
    ensures
        match r {
            Ok(t) => {
                &&& tree_ok(*gram, t)
                &&& t.value == gram.start
                &&& leaf_count(t) == tokens@.len() - 1
                &&& ba_spec(
                    *gram,
                    rev_spec(*gram, chart_spec(*gram, tok_syms(tokens@))),
                    0,
                    tokens@.len() - 1,
                    gram.start,
                    extraction_fuel(tokens@.len() as int + 1, gram.rules@.len() as int),
                ) == Some(tree_view(t))
            },
            Err(_) => ba_spec(
                *gram,
                rev_spec(*gram, chart_spec(*gram, tok_syms(tokens@))),
                0,
                tokens@.len() - 1,
                gram.start,
                extraction_fuel(tokens@.len() as int + 1, gram.rules@.len() as int),
            ) is None,
        },
{
    let state_sets = recognize(gram, tokens);
    let reversed = reverse_and_sort(&state_sets, gram);
    let n = reversed.len();
    let fuel = n.checked_mul(gram.rules.len().saturating_add(1)).unwrap_or(usize::MAX);
    proof {
        assert(set_views(reversed@) == rev_spec(*gram, chart_spec(*gram, tok_syms(tokens@))));
        assert(fuel == extraction_fuel(tokens@.len() as int + 1, gram.rules@.len() as int));
    }
    match build_ast(0, tokens.len() - 1, gram.start, &reversed, gram, fuel) {
        Some(x) => Ok(x),
        None => Err(AstReconstructionFailure),
    }
}

/// Determinism of recognition: the chart is a pure function of the grammar
/// and the token symbols, so two charts recognized from the same inputs are
/// identical, state set for state set and item for item.
pub proof fn lemma_recognize_deterministic(
    g: Grammar,
    toks: Seq<usize>,
    c1: Seq<Seq<EarleyItem>>,
    c2: Seq<Seq<EarleyItem>>,
)
    requires
        c1 == chart_spec(g, toks),
        c2 == chart_spec(g, toks),
    ensures
        c1 == c2,
{
}

} // verus!
