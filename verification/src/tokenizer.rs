//! The tokenizer: trims the input text, splits it on spaces, and matches each
//! atom against the grammar's terminal symbols. One end-of-input token is
//! appended whatever the input held.

use vstd::prelude::*;
use vstd::string::*;
use crate::grammar::{fields_of, split_fields, Grammar, Symbol};

verus! {

/// One input token: the id of the terminal symbol it matched and its text.
pub struct Token {
    pub symbol: usize,
    pub text: String,
}

/// Tokenization failure: the first input atom that names no terminal symbol.
#[derive(Debug)]
pub struct UnknownTerminalError {
    pub atom: String,
}

/// The whitespace characters that trimming removes: the Unicode whitespace
/// set.
pub open spec fn is_wsp(c: char) -> bool {
    c == ' ' || c == '\t' || c == '\n' || c == '\u{0B}' || c == '\u{0C}' || c == '\r'
        || c == '\u{85}' || c == '\u{A0}' || c == '\u{1680}' || ('\u{2000}' <= c
        && c <= '\u{200A}') || c == '\u{2028}' || c == '\u{2029}' || c == '\u{202F}'
        || c == '\u{205F}' || c == '\u{3000}'
}

/// `s` without its leading whitespace.
pub open spec fn trim_front(s: Seq<char>) -> Seq<char>
    decreases s.len(),
{
    if s.len() > 0 && is_wsp(s[0]) {
        trim_front(s.drop_first())
    } else {
        s
    }
}

/// `s` without its trailing whitespace.
pub open spec fn trim_back(s: Seq<char>) -> Seq<char>
    decreases s.len(),
{
    if s.len() > 0 && is_wsp(s.last()) {
        trim_back(s.drop_last())
    } else {
        s
    }
}

/// `s` without leading and trailing whitespace.
pub open spec fn trim_sp(s: Seq<char>) -> Seq<char> {
    trim_back(trim_front(s))
}

/// The input atoms of `text`: the trimmed text split at single spaces, empty
/// atoms kept; wholly blank text has no atoms.
pub open spec fn atoms_of(text: Seq<char>) -> Seq<Seq<char>> {
    let t = trim_sp(text);
    if t.len() == 0 {
        Seq::empty()
    } else {
        fields_of(t)
    }
}

/// Whether some terminal symbol of `g` has the name `a`.
pub open spec fn has_terminal(g: Grammar, a: Seq<char>) -> bool {
    exists|k: int|
        0 <= k < g.symbols@.len() && (#[trigger] g.symbols@[k]).is_terminal
            && g.symbols@[k].name@ == a
}

/// Index of the first atom that names no terminal of `g`, or `atoms.len()`
/// if every atom does.
pub open spec fn first_unknown(g: Grammar, atoms: Seq<Seq<char>>) -> int
    decreases atoms.len(),
{
    if atoms.len() == 0 {
        0
    } else if !has_terminal(g, atoms[0]) {
        0
    } else {
        1 + first_unknown(g, atoms.drop_first())
    }
}

/// If the first `i` atoms all name terminals and atom `i` (if any) does not,
/// then `i` is the first unknown index.
proof fn lemma_first_unknown_at(g: Grammar, atoms: Seq<Seq<char>>, i: int)
    requires
        0 <= i <= atoms.len(),
        forall|j: int| 0 <= j < i ==> has_terminal(g, #[trigger] atoms[j]),
        i < atoms.len() ==> !has_terminal(g, atoms[i]),
    ensures
        first_unknown(g, atoms) == i,
    decreases atoms.len(),
{
    if atoms.len() == 0 {
    } else if !has_terminal(g, atoms[0]) {
        assert(i == 0);
    } else {
        assert(i >= 1);
        lemma_first_unknown_at(g, atoms.drop_first(), i - 1);
    }
}

/// If the first `a` characters of `s` are whitespace and the next one (if
/// any) is not, the front-trimmed text is `s` from `a` on.
proof fn lemma_trim_front_at(s: Seq<char>, a: int)
    requires
        0 <= a <= s.len(),
        forall|k: int| 0 <= k < a ==> is_wsp(s[k]),
        a < s.len() ==> !is_wsp(s[a]),
    ensures
        trim_front(s) == s.skip(a),
    decreases s.len(),
{
    if s.len() > 0 && is_wsp(s[0]) {
        assert(a >= 1);
        lemma_trim_front_at(s.drop_first(), a - 1);
        assert(s.drop_first().skip(a - 1) =~= s.skip(a));
    } else {
        assert(a == 0);
        assert(s.skip(0) =~= s);
    }
}

/// If the last `t` characters of `s` are whitespace and the one before them
/// (if any) is not, the back-trimmed text is `s` cut `t` short.
proof fn lemma_trim_back_at(s: Seq<char>, t: int)
    requires
        0 <= t <= s.len(),
        forall|k: int| s.len() - t <= k < s.len() ==> is_wsp(s[k]),
        t < s.len() ==> !is_wsp(s[s.len() - t - 1]),
    ensures
        trim_back(s) == s.take(s.len() - t),
    decreases s.len(),
{
    if s.len() > 0 && is_wsp(s.last()) {
        assert(t >= 1);
        lemma_trim_back_at(s.drop_last(), t - 1);
        assert(s.drop_last().take(s.len() - t) =~= s.take(s.len() - t));
    } else {
        assert(t == 0);
        assert(s.take(s.len() as int) =~= s);
    }
}

/// Whether `c` is a whitespace character in the sense of `is_wsp`.
fn is_wsp_char(c: char) -> (r: bool)
    ensures
        r == is_wsp(c),
{
    c == ' ' || c == '\t' || c == '\n' || c == '\u{0B}' || c == '\u{0C}' || c == '\r'
        || c == '\u{85}' || c == '\u{A0}' || c == '\u{1680}' || ('\u{2000}' <= c
        && c <= '\u{200A}') || c == '\u{2028}' || c == '\u{2029}' || c == '\u{202F}'
        || c == '\u{205F}' || c == '\u{3000}'
}

/// `text` without leading and trailing whitespace.
pub fn trim_str(text: &str) -> (r: String)
    ensures
        r@ == trim_sp(text@),
{
    let n = text.unicode_len();
    let mut a: usize = 0;
    while a < n && is_wsp_char(text.get_char(a))
        invariant
            n == text@.len(),
            a <= n,
            forall|k: int| 0 <= k < a ==> is_wsp(text@[k]),
        decreases n - a,
    {
        a += 1;
    }
    proof {
        lemma_trim_front_at(text@, a as int);
    }
    let mut b: usize = n;
    while b > a && is_wsp_char(text.get_char(b - 1))
        invariant
            n == text@.len(),
            a <= b <= n,
            forall|k: int| b <= k < n ==> is_wsp(text@[k]),
        decreases b,
    {
        b -= 1;
    }
    let r = text.substring_char(a, b).to_owned();
    proof {
        let t = text@.skip(a as int);
        lemma_trim_back_at(t, n - b);
        assert(r@ =~= t.take(t.len() - (n - b)));
    }
    r
}

/// Looks up a terminal symbol by name; a non-terminal of the same name does
/// not count.
fn find_terminal(symbols: &Vec<Symbol>, name: &String) -> (r: Option<usize>)
    ensures
        match r {
            Some(k) => k < symbols@.len() && symbols@[k as int].is_terminal
                && symbols@[k as int].name@ == name@,
            None => forall|k: int|
                0 <= k < symbols@.len() ==> !((#[trigger] symbols@[k]).is_terminal
                    && symbols@[k].name@ == name@),
        },
{
    let n = symbols.len();
    let mut k: usize = 0;
    while k < n
        invariant
            n == symbols@.len(),
            k <= n,
            forall|j: int|
                0 <= j < k ==> !((#[trigger] symbols@[j]).is_terminal && symbols@[j].name@
                    == name@),
        decreases n - k,
    {
        if symbols[k].is_terminal && symbols[k].name == *name {
            return Some(k);
        }
        k += 1;
    }
    None
}

/// Splits `text` into tokens against the grammar's terminal table. Every atom
/// of the trimmed text must name a terminal symbol; the first atom that does
/// not is returned as an `UnknownTerminalError`. On success the token list
/// carries one token per atom, in order, plus the trailing end-of-input
/// token.
pub fn tokenize(grammar: &Grammar, text: &str) -> (r: Result<Vec<Token>, UnknownTerminalError>)
    ensures
        r is Err ==> first_unknown(*grammar, atoms_of(text@)) < atoms_of(text@).len()
            && r->Err_0.atom@ == atoms_of(text@)[first_unknown(*grammar, atoms_of(text@))],
        match r {
            Ok(toks) => {
                let atoms = atoms_of(text@);
                &&& forall|i: int| 0 <= i < atoms.len() ==> has_terminal(*grammar, #[trigger] atoms[i])
                &&& toks@.len() == atoms.len() + 1
                &&& forall|i: int|
                    0 <= i < atoms.len() ==> {
                        let tk = #[trigger] toks@[i];
                        &&& tk.text@ == atoms[i]
                        &&& tk.symbol < grammar.symbols@.len()
                        &&& grammar.symbols@[tk.symbol as int].is_terminal
                        &&& grammar.symbols@[tk.symbol as int].name@ == atoms[i]
                    }
                &&& toks@[atoms.len() as int].symbol == 0
                &&& toks@[atoms.len() as int].text@ == "End of input"@
            },
            Err(_) => true,
        },
{
    let ghost atoms = atoms_of(text@);
    let trimmed = trim_str(text);
    let mut result: Vec<Token> = Vec::new();
    if trimmed.as_str().unicode_len() > 0 {
        let atom_strs = split_fields(trimmed.as_str());
        proof {
            assert(atom_strs@.map_values(|p: String| p@) == atoms);
        }
        let mut i: usize = 0;
        while i < atom_strs.len()
            invariant
                atoms == atoms_of(text@),
                atom_strs@.map_values(|p: String| p@) == atoms,
                i <= atoms.len(),
                result@.len() == i,
                forall|j: int| 0 <= j < i ==> has_terminal(*grammar, #[trigger] atoms[j]),
                forall|j: int|
                    0 <= j < i ==> {
                        let tk = #[trigger] result@[j];
                        &&& tk.text@ == atoms[j]
                        &&& tk.symbol < grammar.symbols@.len()
                        &&& grammar.symbols@[tk.symbol as int].is_terminal
                        &&& grammar.symbols@[tk.symbol as int].name@ == atoms[j]
                    },
            decreases atoms.len() - i,
        {
            proof {
                assert(atom_strs@[i as int]@ == atoms[i as int]);
            }
            match find_terminal(&grammar.symbols, &atom_strs[i]) {
                Some(k) => {
                    result.push(Token { symbol: k, text: atom_strs[i].clone() });
                },
                None => {
                    let err = UnknownTerminalError { atom: atom_strs[i].clone() };
                    proof {
                        assert(err.atom@ == atoms[i as int]);
                        assert(!has_terminal(*grammar, atoms[i as int]));
                        lemma_first_unknown_at(*grammar, atoms_of(text@), i as int);
                    }
                    return Err(err);
                },
            }
            i += 1;
        }
    }
    result.push(Token { symbol: 0, text: String::from_str("End of input") });
    Ok(result)
}

} // verus!
