//! The grammar model: symbols, rules, and construction from a textual rule
//! list of the shape `HEAD -> BODY...`, one rule per line.

use vstd::prelude::*;
use vstd::string::*;

verus! {

/// One grammar symbol. `id` is the symbol's index in the grammar's symbol
/// table; `is_terminal` says whether the symbol stands for an input token.
pub struct Symbol {
    pub id: usize,
    pub name: String,
    pub is_terminal: bool,
}

/// One production rule: `start` is the head symbol's id, `symbols` the ids of
/// the body symbols in order.
pub struct Rule {
    pub id: usize,
    pub start: usize,
    pub symbols: Vec<usize>,
}

/// A grammar: a symbol table, a rule list, and the start symbol's id.
/// Immutable once built.
pub struct Grammar {
    pub rules: Vec<Rule>,
    pub symbols: Vec<Symbol>,
    pub start: usize,
}

impl Grammar {
    /// The body of rule `r`, as a sequence of symbol ids.
    pub open spec fn rule_body(&self, r: int) -> Seq<usize> {
        self.rules@[r].symbols@
    }

    /// The head symbol id of rule `r`.
    pub open spec fn rule_head(&self, r: int) -> int {
        self.rules@[r].start as int
    }

    /// Whether symbol id `s` is a terminal.
    pub open spec fn is_term(&self, s: int) -> bool {
        self.symbols@[s].is_terminal
    }

    /// Well-formedness: ids equal indices, every symbol reference is in
    /// bounds, rule heads are non-terminal, rule bodies are non-empty (empty
    /// bodies are rejected at construction), the start symbol is a valid
    /// non-terminal, symbol 0 is the reserved end-of-input terminal, and
    /// symbol names are unique.
    pub open spec fn wf(&self) -> bool {
        &&& self.symbols@.len() >= 2
        &&& forall|s: int|
            0 <= s < self.symbols@.len() ==> (#[trigger] self.symbols@[s]).id == s
        &&& forall|r: int|
            0 <= r < self.rules@.len() ==> (#[trigger] self.rules@[r]).id == r
        &&& forall|r: int|
            0 <= r < self.rules@.len() ==> 0 <= #[trigger] self.rule_head(r)
                < self.symbols@.len() && !self.is_term(self.rule_head(r))
        &&& forall|r: int|
            0 <= r < self.rules@.len() ==> (#[trigger] self.rule_body(r)).len() >= 1
        &&& forall|r: int, j: int|
            0 <= r < self.rules@.len() && 0 <= j < self.rule_body(r).len()
                ==> (#[trigger] self.rule_body(r)[j]) < self.symbols@.len()
        &&& 0 < self.start < self.symbols@.len()
        &&& !self.is_term(self.start as int)
        &&& self.symbols@[0].is_terminal
        &&& forall|s: int, t: int|
            0 <= s < self.symbols@.len() && 0 <= t < self.symbols@.len() && s != t
                ==> (#[trigger] self.symbols@[s]).name@ != (#[trigger] self.symbols@[t]).name@
    }
}

/// The text of the first `j` body symbols of a rule, each preceded by one
/// space.
pub open spec fn body_text(symbols: Seq<Symbol>, body: Seq<usize>, j: int) -> Seq<char>
    decreases j,
{
    if j <= 0 {
        Seq::empty()
    } else {
        body_text(symbols, body, j - 1) + " "@ + symbols[body[j - 1] as int].name@
    }
}

/// The rendered text of a rule: head name, arrow, and the body symbols' names
/// each preceded by one space.
pub open spec fn rule_text(g: Grammar, rule: Rule) -> Seq<char> {
    g.symbols@[rule.start as int].name@ + " -> "@ + body_text(
        g.symbols@,
        rule.symbols@,
        rule.symbols@.len() as int,
    )
}

impl Grammar {
    /// Appends the rendered text of `rule` to `target`.
    pub fn print_rule(&self, target: &mut String, rule: &Rule)
        requires
            rule.start < self.symbols@.len(),
            forall|j: int|
                0 <= j < rule.symbols@.len() ==> (#[trigger] rule.symbols@[j])
                    < self.symbols@.len(),
        ensures
            final(target)@ == old(target)@ + rule_text(*self, *rule),
    {
        let mut sub = String::new();
        let mut j: usize = 0;
        while j < rule.symbols.len()
            invariant
                rule.start < self.symbols@.len(),
                forall|k: int|
                    0 <= k < rule.symbols@.len() ==> (#[trigger] rule.symbols@[k])
                        < self.symbols@.len(),
                j <= rule.symbols@.len(),
                sub@ == body_text(self.symbols@, rule.symbols@, j as int),
            decreases rule.symbols@.len() - j,
        {
            sub.append(" ");
            let sym = rule.symbols[j];
            sub.append(self.symbols[sym].name.as_str());
            proof {
                assert(sub@ =~= body_text(self.symbols@, rule.symbols@, j + 1));
            }
            j += 1;
        }
        target.append(self.symbols[rule.start].name.as_str());
        target.append(" -> ");
        target.append(sub.as_str());
        proof {
            assert(target@ =~= old(target)@ + rule_text(*self, *rule));
        }
    }
}

/// Index of the first occurrence of `c` in `s`, or `s.len()` if there is
/// none.
pub open spec fn first_ch(s: Seq<char>, c: char) -> int
    decreases s.len(),
{
    if s.len() == 0 {
        0
    } else if s[0] == c {
        0
    } else {
        1 + first_ch(s.drop_first(), c)
    }
}

/// `s` split at every occurrence of `c`; empty pieces are kept, so the result
/// always has one more piece than `s` has occurrences of `c`.
pub open spec fn split_ch(s: Seq<char>, c: char) -> Seq<Seq<char>>
    decreases s.len(),
{
    let k = first_ch(s, c);
    if 0 <= k < s.len() {
        seq![s.take(k)] + split_ch(s.skip(k + 1), c)
    } else {
        seq![s]
    }
}

/// `s` split at every `'\n'`.
pub open spec fn split_nl(s: Seq<char>) -> Seq<Seq<char>> {
    split_ch(s, '\n')
}

/// `l` without one trailing carriage return, if it has one.
pub open spec fn strip_cr(l: Seq<char>) -> Seq<char> {
    if l.len() > 0 && l.last() == '\r' {
        l.drop_last()
    } else {
        l
    }
}

/// The lines of `s`: pieces split at `'\n'`, a final empty piece dropped (a
/// trailing newline ends the last line rather than opening a new one), and a
/// trailing `'\r'` stripped from each line.
pub open spec fn lines_of(s: Seq<char>) -> Seq<Seq<char>> {
    if s.len() == 0 {
        Seq::empty()
    } else {
        let segs = split_nl(s);
        let kept = if segs.last().len() == 0 {
            segs.drop_last()
        } else {
            segs
        };
        kept.map_values(|l: Seq<char>| strip_cr(l))
    }
}

/// The space-separated fields of one line; empty fields are kept, and an
/// empty line has a single empty field.
pub open spec fn fields_of(l: Seq<char>) -> Seq<Seq<char>> {
    split_ch(l, ' ')
}

/// Count of leading quote characters of `s`.
pub open spec fn lead_quotes(s: Seq<char>) -> int
    decreases s.len(),
{
    if s.len() == 0 {
        0
    } else if s[0] == '\'' {
        1 + lead_quotes(s.drop_first())
    } else {
        0
    }
}

/// Count of trailing quote characters of `s`.
pub open spec fn trail_quotes(s: Seq<char>) -> int
    decreases s.len(),
{
    if s.len() == 0 {
        0
    } else if s.last() == '\'' {
        1 + trail_quotes(s.drop_last())
    } else {
        0
    }
}

/// `s` with all leading and all trailing single quotes removed; a run of
/// quotes alone strips to the empty sequence.
pub open spec fn strip_quotes(s: Seq<char>) -> Seq<char> {
    let a = lead_quotes(s);
    let b = s.len() - trail_quotes(s);
    if a < b {
        s.subrange(a, b)
    } else {
        Seq::empty()
    }
}

/// Whether a body atom is written as a quoted terminal.
pub open spec fn atom_quoted(s: Seq<char>) -> bool {
    s.len() > 0 && s[0] == '\''
}

/// Whether one grammar line is well-shaped: at least a head, the arrow, and
/// one body atom, with the arrow as the second field.
pub open spec fn good_line(l: Seq<char>) -> bool {
    fields_of(l).len() >= 3 && fields_of(l)[1] == "->"@
}

/// Construction failure: the 0-based index of the first offending line (0 for
/// an empty grammar text).
#[derive(Debug, PartialEq, Eq, Structural, Clone, Copy)]
pub struct GrammarFormatError {
    pub line: usize,
}

/// If the first `j` characters of `s` differ from `c` and either `j` is the
/// length of `s` or `s[j] == c`, then `j` is the first occurrence of `c`.
pub proof fn lemma_first_ch_at(s: Seq<char>, c: char, j: int)
    requires
        0 <= j <= s.len(),
        forall|k: int| 0 <= k < j ==> s[k] != c,
        j < s.len() ==> s[j] == c,
    ensures
        first_ch(s, c) == j,
    decreases s.len(),
{
    if s.len() == 0 {
    } else if s[0] == c {
        assert(j == 0);
    } else {
        assert(j >= 1);
        lemma_first_ch_at(s.drop_first(), c, j - 1);
    }
}

/// Splits `s` at every occurrence of `sep`, keeping empty pieces; no piece
/// contains `sep`.
pub fn split_on(s: &str, sep: char) -> (pieces: Vec<String>)
    ensures
        pieces@.map_values(|p: String| p@) == split_ch(s@, sep),
        forall|i: int, k: int|
            0 <= i < pieces@.len() && 0 <= k < pieces@[i]@.len() ==> (#[trigger] pieces@[i]@[k])
                != sep,
{
    let n = s.unicode_len();
    let mut pieces: Vec<String> = Vec::new();
    let mut pos: usize = 0;
    proof {
        assert(s@.skip(0) =~= s@);
        assert(pieces@.map_values(|p: String| p@) + split_ch(s@, sep) =~= split_ch(s@, sep));
    }
    loop
        invariant_except_break
            split_ch(s@, sep) == pieces@.map_values(|p: String| p@) + split_ch(
                s@.skip(pos as int),
                sep,
            ),
        invariant
            n == s@.len(),
            pos <= n,
            forall|i: int, k: int|
                0 <= i < pieces@.len() && 0 <= k < pieces@[i]@.len() ==> (
                #[trigger] pieces@[i]@[k]) != sep,
        ensures
            pieces@.map_values(|p: String| p@) == split_ch(s@, sep),
            forall|i: int, k: int|
                0 <= i < pieces@.len() && 0 <= k < pieces@[i]@.len() ==> (
                #[trigger] pieces@[i]@[k]) != sep,
        decreases n - pos,
    {
        let ghost p0 = pos as int;
        let ghost rem = s@.skip(p0);
        let mut j: usize = pos;
        while j < n && s.get_char(j) != sep
            invariant
                n == s@.len(),
                pos <= j <= n,
                forall|k: int| pos <= k < j ==> s@[k] != sep,
            decreases n - j,
        {
            j += 1;
        }
        proof {
            lemma_first_ch_at(rem, sep, j - p0);
        }
        let piece = s.substring_char(pos, j).to_owned();
        proof {
            assert(piece@ =~= rem.take(j - p0));
        }
        let ghost old_map = pieces@.map_values(|p: String| p@);
        pieces.push(piece);
        proof {
            assert(pieces@.map_values(|p: String| p@) =~= old_map.push(piece@));
        }
        if j < n {
            pos = j + 1;
            proof {
                assert(rem.skip(j - p0 + 1) =~= s@.skip(pos as int));
                assert(split_ch(rem, sep) == seq![rem.take(j - p0)] + split_ch(
                    rem.skip(j - p0 + 1),
                    sep,
                ));
                assert(split_ch(s@, sep) =~= pieces@.map_values(|p: String| p@) + split_ch(
                    s@.skip(pos as int),
                    sep,
                ));
            }
        } else {
            proof {
                assert(piece@ =~= rem);
                assert(split_ch(rem, sep) == seq![rem]);
                assert(split_ch(s@, sep) =~= pieces@.map_values(|p: String| p@));
            }
            break;
        }
    }
    pieces
}

/// The space-separated fields of one grammar line.
pub fn split_fields(line: &str) -> (fields: Vec<String>)
    ensures
        fields@.map_values(|p: String| p@) == fields_of(line@),
        forall|i: int, k: int|
            0 <= i < fields@.len() && 0 <= k < fields@[i]@.len() ==> (#[trigger] fields@[i]@[k])
                != ' ',
{
    split_on(line, ' ')
}

/// `l` without one trailing carriage return, if it has one.
pub fn strip_cr_str(l: &String) -> (r: String)
    ensures
        r@ == strip_cr(l@),
{
    let n = l.as_str().unicode_len();
    if n > 0 && l.as_str().get_char(n - 1) == '\r' {
        let r = l.as_str().substring_char(0, n - 1).to_owned();
        proof {
            assert(r@ =~= strip_cr(l@));
        }
        r
    } else {
        l.clone()
    }
}

/// The lines of `text`, as `lines_of` describes them.
pub fn split_lines(text: &str) -> (lines: Vec<String>)
    ensures
        lines@.map_values(|p: String| p@) == lines_of(text@),
{
    let n = text.unicode_len();
    if n == 0 {
        let lines: Vec<String> = Vec::new();
        proof {
            assert(lines@.map_values(|p: String| p@) =~= lines_of(text@));
        }
        return lines;
    }
    let mut segs = split_on(text, '\n');
    let ghost seg_views = segs@.map_values(|p: String| p@);
    proof {
        assert(seg_views.len() > 0);
    }
    if segs[segs.len() - 1].as_str().unicode_len() == 0 {
        segs.pop();
        proof {
            assert(segs@.map_values(|p: String| p@) =~= seg_views.drop_last());
        }
    }
    let ghost kept = segs@.map_values(|p: String| p@);
    let mut lines: Vec<String> = Vec::new();
    let mut i: usize = 0;
    while i < segs.len()
        invariant
            kept == segs@.map_values(|p: String| p@),
            i <= segs@.len(),
            lines@.map_values(|p: String| p@) =~= kept.take(i as int).map_values(
                |l: Seq<char>| strip_cr(l),
            ),
        decreases segs@.len() - i,
    {
        let stripped = strip_cr_str(&segs[i]);
        proof {
            assert(kept[i as int] == segs@[i as int]@);
            assert(stripped@ == strip_cr(kept[i as int]));
        }
        let ghost old_map = lines@.map_values(|p: String| p@);
        lines.push(stripped);
        proof {
            assert(lines@.map_values(|p: String| p@) =~= old_map.push(stripped@));
            assert(lines@.map_values(|p: String| p@) =~= kept.take(i + 1).map_values(
                |l: Seq<char>| strip_cr(l),
            ));
        }
        i += 1;
    }
    proof {
        assert(kept.take(segs@.len() as int) =~= kept);
        assert(lines@.map_values(|p: String| p@) =~= lines_of(text@));
    }
    lines
}

/// If the first `a` characters of `s` are quotes and the next one (if any) is
/// not, then `a` is the leading-quote count.
proof fn lemma_lead_quotes_at(s: Seq<char>, a: int)
    requires
        0 <= a <= s.len(),
        forall|k: int| 0 <= k < a ==> s[k] == '\'',
        a < s.len() ==> s[a] != '\'',
    ensures
        lead_quotes(s) == a,
    decreases s.len(),
{
    if s.len() == 0 {
    } else if s[0] == '\'' {
        assert(a >= 1);
        lemma_lead_quotes_at(s.drop_first(), a - 1);
    } else {
        assert(a == 0);
    }
}

/// If the last `t` characters of `s` are quotes and the one before them (if
/// any) is not, then `t` is the trailing-quote count.
proof fn lemma_trail_quotes_at(s: Seq<char>, t: int)
    requires
        0 <= t <= s.len(),
        forall|k: int| s.len() - t <= k < s.len() ==> s[k] == '\'',
        t < s.len() ==> s[s.len() - t - 1] != '\'',
    ensures
        trail_quotes(s) == t,
    decreases s.len(),
{
    if s.len() == 0 {
    } else if s.last() == '\'' {
        assert(t >= 1);
        lemma_trail_quotes_at(s.drop_last(), t - 1);
    } else {
        assert(t == 0);
    }
}

/// A body atom with all leading and trailing quote marks removed.
pub fn strip_quote_marks(atom: &String) -> (r: String)
    ensures
        r@ == strip_quotes(atom@),
{
    let s = atom.as_str();
    let n = s.unicode_len();
    let mut a: usize = 0;
    while a < n && s.get_char(a) == '\''
        invariant
            n == s@.len(),
            a <= n,
            forall|k: int| 0 <= k < a ==> s@[k] == '\'',
        decreases n - a,
    {
        a += 1;
    }
    proof {
        lemma_lead_quotes_at(s@, a as int);
    }
    let mut b: usize = n;
    while b > 0 && s.get_char(b - 1) == '\''
        invariant
            n == s@.len(),
            b <= n,
            forall|k: int| b <= k < n ==> s@[k] == '\'',
        decreases b,
    {
        b -= 1;
    }
    proof {
        lemma_trail_quotes_at(s@, n - b);
    }
    if a < b {
        let r = s.substring_char(a, b).to_owned();
        proof {
            assert(r@ =~= strip_quotes(atom@));
        }
        r
    } else {
        let r = String::new();
        proof {
            assert(r@ =~= strip_quotes(atom@));
        }
        r
    }
}

/// Whether a body atom starts with a quote mark, which marks it a terminal.
pub fn atom_is_quoted(atom: &String) -> (r: bool)
    ensures
        r == atom_quoted(atom@),
{
    let s = atom.as_str();
    let n = s.unicode_len();
    n > 0 && s.get_char(0) == '\''
}

/// Looks up a symbol by name; returns the index of a symbol whose name equals
/// `name`, or `None` if there is none.
pub fn find_symbol(symbols: &Vec<Symbol>, name: &String) -> (r: Option<usize>)
    ensures
        match r {
            Some(k) => k < symbols@.len() && symbols@[k as int].name@ == name@,
            None => forall|k: int|
                0 <= k < symbols@.len() ==> (#[trigger] symbols@[k]).name@ != name@,
        },
{
    let n = symbols.len();
    let mut k: usize = 0;
    while k < n
        invariant
            n == symbols@.len(),
            k <= n,
            forall|j: int| 0 <= j < k ==> (#[trigger] symbols@[j]).name@ != name@,
        decreases n - k,
    {
        if symbols[k].name == *name {
            return Some(k);
        }
        k += 1;
    }
    None
}

/// Well-formedness of a partial symbol table: ids equal indices, names are
/// unique, and symbol 0 is the reserved end-of-input terminal.
pub open spec fn table_wf(symbols: Seq<Symbol>) -> bool {
    &&& symbols.len() >= 1
    &&& forall|s: int| 0 <= s < symbols.len() ==> (#[trigger] symbols[s]).id == s
    &&& symbols[0].is_terminal
    &&& symbols[0].name@ == "End of input"@
    &&& forall|s: int, t: int|
        0 <= s < symbols.len() && 0 <= t < symbols.len() && s != t
            ==> (#[trigger] symbols[s]).name@ != (#[trigger] symbols[t]).name@
}

/// Well-formedness of one rule against a symbol table.
pub open spec fn rule_ok(symbols: Seq<Symbol>, rule: Rule, r: int) -> bool {
    &&& rule.id == r
    &&& 0 <= rule.start < symbols.len()
    &&& !symbols[rule.start as int].is_terminal
    &&& rule.symbols@.len() >= 1
    &&& forall|j: int|
        0 <= j < rule.symbols@.len() ==> (#[trigger] rule.symbols@[j]) < symbols.len()
}

/// The rule says what its source line says: the head symbol's name is the
/// first field, and the body symbols' names are the remaining fields with
/// their quote marks stripped.
pub open spec fn rule_matches(symbols: Seq<Symbol>, rule: Rule, l: Seq<char>) -> bool {
    let f = fields_of(l);
    &&& symbols[rule.start as int].name@ == f[0]
    &&& rule.symbols@.len() == f.len() - 2
    &&& forall|j: int|
        0 <= j < rule.symbols@.len()
            ==> symbols[(#[trigger] rule.symbols@[j]) as int].name@ == strip_quotes(f[j + 2])
}

/// Whether `name` is written as a quoted body atom somewhere in the rule
/// list.
pub open spec fn quoted_occurrence(lns: Seq<Seq<char>>, name: Seq<char>) -> bool {
    exists|i: int, f: int|
        0 <= i < lns.len() && 2 <= f < fields_of(lns[i]).len() && atom_quoted(
            #[trigger] fields_of(lns[i])[f],
        ) && strip_quotes(fields_of(lns[i])[f]) == name
}

/// Whether `name` stands as some line's head field.
pub open spec fn head_occurrence(lns: Seq<Seq<char>>, name: Seq<char>) -> bool {
    exists|i: int| 0 <= i < lns.len() && (#[trigger] fields_of(lns[i]))[0] == name
}

/// Whether `name` is written as an unquoted body atom somewhere in the rule
/// list (quote marks stripped all the same, as construction strips them).
pub open spec fn unquoted_occurrence(lns: Seq<Seq<char>>, name: Seq<char>) -> bool {
    exists|i: int, f: int|
        0 <= i < lns.len() && 2 <= f < fields_of(lns[i]).len() && !atom_quoted(
            #[trigger] fields_of(lns[i])[f],
        ) && strip_quotes(fields_of(lns[i])[f]) == name
}

/// Interns one name: already-present names keep their place, a new name is
/// appended at the next free id.
pub open spec fn intern(names: Seq<Seq<char>>, n: Seq<char>) -> Seq<Seq<char>> {
    if names.contains(n) {
        names
    } else {
        names.push(n)
    }
}

/// Interns one line's body atoms, quote marks stripped, left to right from
/// field `fi`.
pub open spec fn line_names(names: Seq<Seq<char>>, f: Seq<Seq<char>>, fi: int) -> Seq<
    Seq<char>,
>
    decreases f.len() - fi,
{
    if fi < 2 || fi >= f.len() {
        names
    } else {
        line_names(intern(names, strip_quotes(f[fi])), f, fi + 1)
    }
}

/// The symbol names of the table after the first `li` lines, in id order:
/// the reserved end-of-input name, then every name in order of first
/// sighting — each line's head first, then its body atoms left to right.
pub open spec fn table_names(lns: Seq<Seq<char>>, li: int) -> Seq<Seq<char>>
    decreases li,
{
    if li <= 0 {
        seq!["End of input"@]
    } else {
        let f = fields_of(lns[li - 1]);
        line_names(intern(table_names(lns, li - 1), f[0]), f, 2)
    }
}

/// The name of each symbol of a table, in id order.
pub open spec fn names_of(symbols: Seq<Symbol>) -> Seq<Seq<char>> {
    symbols.map_values(|sym: Symbol| sym.name@)
}

/// Builds the grammar from a rule list, one rule per line, of the shape
/// `HEAD -> BODY...`. A symbol first seen as a quoted body atom is terminal;
/// a symbol ever seen as a head is forced non-terminal. The first line's head
/// is the start symbol. A line without the arrow as its second field, a line
/// without at least one body atom, and an empty rule list are all rejected.
pub fn build_grammar(bn_form: &str) -> (r: Result<Grammar, GrammarFormatError>)
    ensures
        match r {
            Ok(g) => {
                let lns = lines_of(bn_form@);
                &&& g.wf()
                &&& lns.len() > 0
                &&& forall|i: int| 0 <= i < lns.len() ==> good_line(#[trigger] lns[i])
                &&& g.start == 1
                &&& g.symbols@[0].name@ == "End of input"@
                &&& g.rules@[0].start == g.start
                &&& names_of(g.symbols@) == table_names(lns, lns.len() as int)
                &&& g.rules@.len() == lns.len()
                &&& forall|i: int|
                    0 <= i < lns.len() ==> rule_matches(g.symbols@, #[trigger] g.rules@[i], lns[i])
                &&& forall|s: int|
                    1 <= s < g.symbols@.len() && (#[trigger] g.symbols@[s]).is_terminal
                        ==> quoted_occurrence(lns, g.symbols@[s].name@)
                &&& forall|s: int|
                    1 <= s < g.symbols@.len() && !(#[trigger] g.symbols@[s]).is_terminal
                        ==> head_occurrence(lns, g.symbols@[s].name@) || unquoted_occurrence(
                        lns,
                        g.symbols@[s].name@,
                    )
            },
            Err(e) => {
                let lns = lines_of(bn_form@);
                &&& !(lns.len() > 0 && forall|i: int|
                    0 <= i < lns.len() ==> good_line(#[trigger] lns[i]))
                &&& if lns.len() == 0 {
                    e.line == 0
                } else {
                    &&& e.line < lns.len()
                    &&& !good_line(lns[e.line as int])
                    &&& forall|j: int| 0 <= j < e.line ==> good_line(#[trigger] lns[j])
                }
            },
        },
{
    let ghost lns = lines_of(bn_form@);
    let lines = split_lines(bn_form);
    let mut symbols: Vec<Symbol> = Vec::new();
    symbols.push(
        Symbol { id: 0, name: String::from_str("End of input"), is_terminal: true },
    );
    let mut rules: Vec<Rule> = Vec::new();
    let arrow = String::from_str("->");
    if lines.len() == 0 {
        return Err(GrammarFormatError { line: 0 });
    }
    proof {
        assert(names_of(symbols@) =~= table_names(lns, 0));
    }
    let mut li: usize = 0;
    while li < lines.len()
        invariant
            lines@.map_values(|p: String| p@) == lns,
            lns == lines_of(bn_form@),
            arrow@ == "->"@,
            li <= lines@.len(),
            lines@.len() >= 1,
            table_wf(symbols@),
            li == 0 ==> symbols@.len() == 1,
            li > 0 ==> symbols@.len() >= 2 && !symbols@[1].is_terminal,
            rules@.len() == li,
            forall|r: int| 0 <= r < li ==> rule_ok(symbols@, #[trigger] rules@[r], r),
            forall|r: int| 0 <= r < li ==> rule_matches(symbols@, #[trigger] rules@[r], lns[r]),
            forall|j: int| 0 <= j < li ==> good_line(#[trigger] lns[j]),
            forall|s: int|
                1 <= s < symbols@.len() && (#[trigger] symbols@[s]).is_terminal
                    ==> quoted_occurrence(lns, symbols@[s].name@),
            forall|s: int|
                1 <= s < symbols@.len() && !(#[trigger] symbols@[s]).is_terminal
                    ==> head_occurrence(lns, symbols@[s].name@) || unquoted_occurrence(
                    lns,
                    symbols@[s].name@,
                ),
            li > 0 ==> rules@[0].start == 1,
            names_of(symbols@) == table_names(lns, li as int),
        decreases lines@.len() - li,
    {
        let fields = split_fields(lines[li].as_str());
        proof {
            assert(lines@[li as int]@ == lns[li as int]);
            assert(fields@.map_values(|p: String| p@) == fields_of(lns[li as int]));
        }
        if fields.len() < 3 {
            return Err(GrammarFormatError { line: li });
        }
        if !(fields[1] == arrow) {
            proof {
                assert(fields_of(lns[li as int])[1] == fields@[1]@);
            }
            return Err(GrammarFormatError { line: li });
        }
        proof {
            assert(good_line(lns[li as int]));
        }
        // The head: looked up by name, forced non-terminal; created
        // non-terminal when new.
        let head_id: usize;
        match find_symbol(&symbols, &fields[0]) {
            Some(k) => {
                proof {
                    reveal_strlit("End of input");
                    if k == 0 {
                        assert(fields@[0]@ == symbols@[0].name@);
                        assert(symbols@[0].name@[3] == ' ');
                        assert(false);
                    }
                }
                proof {
                    assert((fields_of(lns[li as int]))[0] == symbols@[k as int].name@);
                    assert(head_occurrence(lns, symbols@[k as int].name@));
                    assert(names_of(symbols@)[k as int] == fields@[0]@);
                    assert(names_of(symbols@).contains(fields@[0]@));
                }
                let ghost names_before = names_of(symbols@);
                symbols[k].is_terminal = false;
                head_id = k;
                proof {
                    assert(names_of(symbols@) =~= names_before);
                    assert(names_of(symbols@) =~= intern(
                        table_names(lns, li as int),
                        fields_of(lns[li as int])[0],
                    ));
                }
            },
            None => {
                let id = symbols.len();
                proof {
                    assert((fields_of(lns[li as int]))[0] == fields@[0]@);
                    assert(head_occurrence(lns, fields@[0]@));
                    assert(!names_of(symbols@).contains(fields@[0]@)) by {
                        if names_of(symbols@).contains(fields@[0]@) {
                            let w = choose|w: int|
                                0 <= w < names_of(symbols@).len() && names_of(symbols@)[w]
                                    == fields@[0]@;
                            assert(symbols@[w].name@ == fields@[0]@);
                        }
                    }
                }
                let ghost names_before = names_of(symbols@);
                symbols.push(Symbol { id, name: fields[0].clone(), is_terminal: false });
                head_id = id;
                proof {
                    assert(names_of(symbols@) =~= names_before.push(fields@[0]@));
                    assert(names_of(symbols@) =~= intern(
                        table_names(lns, li as int),
                        fields_of(lns[li as int])[0],
                    ));
                }
            },
        }
        proof {
            assert(table_wf(symbols@));
            assert(head_id < symbols@.len());
            assert(!symbols@[head_id as int].is_terminal);
            assert(symbols@[head_id as int].name@ == fields@[0]@);
        }
        // The body atoms: looked up by their quote-stripped names; a new
        // symbol is terminal exactly when the atom is quoted.
        let ghost base_names = intern(table_names(lns, li as int), fields_of(lns[li as int])[0]);
        let mut body: Vec<usize> = Vec::new();
        let mut fi: usize = 2;
        while fi < fields.len()
            invariant
                fields@.map_values(|p: String| p@) == fields_of(lns[li as int]),
                2 <= fi <= fields@.len(),
                fields@.len() >= 3,
                table_wf(symbols@),
                head_id < symbols@.len(),
                !symbols@[head_id as int].is_terminal,
                symbols@[head_id as int].name@ == fields_of(lns[li as int])[0],
                li < lns.len(),
                lns == lines_of(bn_form@),
                li > 0 ==> symbols@.len() >= 2 && !symbols@[1].is_terminal,
                li == 0 ==> head_id == 1 && symbols@.len() >= 2,
                body@.len() == fi - 2,
                forall|j: int|
                    0 <= j < body@.len() ==> (#[trigger] body@[j]) < symbols@.len(),
                forall|j: int|
                    0 <= j < body@.len()
                        ==> symbols@[(#[trigger] body@[j]) as int].name@ == strip_quotes(
                        fields_of(lns[li as int])[j + 2],
                    ),
                rules@.len() == li,
                forall|r: int| 0 <= r < li ==> rule_ok(symbols@, #[trigger] rules@[r], r),
                forall|r: int|
                    0 <= r < li ==> rule_matches(symbols@, #[trigger] rules@[r], lns[r]),
                forall|s: int|
                    1 <= s < symbols@.len() && (#[trigger] symbols@[s]).is_terminal
                        ==> quoted_occurrence(lns, symbols@[s].name@),
                forall|s: int|
                    1 <= s < symbols@.len() && !(#[trigger] symbols@[s]).is_terminal
                        ==> head_occurrence(lns, symbols@[s].name@) || unquoted_occurrence(
                        lns,
                        symbols@[s].name@,
                    ),
                li > 0 ==> rules@[0].start == 1,
                line_names(names_of(symbols@), fields_of(lns[li as int]), fi as int)
                    == line_names(base_names, fields_of(lns[li as int]), 2),
            decreases fields@.len() - fi,
        {
            let quoted = atom_is_quoted(&fields[fi]);
            let trimmed = strip_quote_marks(&fields[fi]);
            proof {
                assert(trimmed@ == strip_quotes(fields_of(lns[li as int])[fi as int]));
            }
            match find_symbol(&symbols, &trimmed) {
                Some(k) => {
                    proof {
                        assert(names_of(symbols@)[k as int] == trimmed@);
                        assert(names_of(symbols@).contains(trimmed@));
                        assert(line_names(names_of(symbols@), fields_of(lns[li as int]),
                            fi + 1) == line_names(names_of(symbols@),
                            fields_of(lns[li as int]), fi as int));
                    }
                    body.push(k);
                },
                None => {
                    let id = symbols.len();
                    proof {
                        if quoted {
                            assert(atom_quoted(fields_of(lns[li as int])[fi as int]));
                            assert(quoted_occurrence(lns, trimmed@));
                        } else {
                            assert(!atom_quoted(fields_of(lns[li as int])[fi as int]));
                            assert(unquoted_occurrence(lns, trimmed@));
                        }
                        assert(!names_of(symbols@).contains(trimmed@)) by {
                            if names_of(symbols@).contains(trimmed@) {
                                let w = choose|w: int|
                                    0 <= w < names_of(symbols@).len() && names_of(
                                        symbols@,
                                    )[w] == trimmed@;
                                assert(symbols@[w].name@ == trimmed@);
                            }
                        }
                    }
                    let ghost names_before = names_of(symbols@);
                    symbols.push(Symbol { id, name: trimmed, is_terminal: quoted });
                    body.push(id);
                    proof {
                        assert(names_of(symbols@) =~= names_before.push(trimmed@));
                        assert(intern(names_before, strip_quotes(fields_of(lns[li as int])[
                            fi as int])) =~= names_of(symbols@));
                        assert(line_names(names_of(symbols@), fields_of(lns[li as int]),
                            fi + 1) == line_names(names_before, fields_of(lns[li as int]),
                            fi as int));
                    }
                },
            }
            fi += 1;
        }
        proof {
            assert(names_of(symbols@) == line_names(base_names, fields_of(lns[li as int]), 2));
            assert(names_of(symbols@) == table_names(lns, li + 1));
        }
        let rule_id = rules.len();
        rules.push(Rule { id: rule_id, start: head_id, symbols: body });
        li += 1;
    }
    let g = Grammar { rules, symbols, start: 1 };
    proof {
        assert(g.wf());
    }
    Ok(g)
}

} // verus!
