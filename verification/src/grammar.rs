//! The formula grammar and its meaning, stated mathematically.
//!
//! ```text
//! num                := digit+
//! element_symbol     := uppercase lowercase*
//! sign               := '-' | '+'
//! electron           := '<' num? 'e' sign '>'
//! atom               := element_symbol num?
//! parenthesis_wrapper:= '(' molecule_group ')' num?
//! molecule           := num? ((atom | parenthesis_wrapper)+ electron? | electron)
//! molecule_group     := molecule ('.' molecule)*
//! ```
//!
//! [`spec_parse`] is the grammar's meaning as a function from input bytes to
//! an abstract tree; [`eval_node`] is the reduction of such a tree into a
//! flat signed element-count mapping, with every arithmetic step checked
//! against the coefficient type's range. The executable parser and reducer
//! are proved to return exactly what these functions describe.

use vstd::prelude::*;

verus! {

/// The abstract shape of a parsed formula: what a well-formed arena tree
/// stands for, independent of node indices and cursors.
pub enum Ast {
    /// A leaf element symbol with its multiplier.
    Atom { name: Seq<u8>, count: int },
    /// A molecule: `prefix` scales all descendants, `charge` is the net
    /// charge its trailing annotation contributes (zero when absent).
    Molecule { prefix: int, charge: int, parts: Seq<Ast> },
    /// A parenthesised group with its trailing multiplier.
    Paren { suffix: int, parts: Seq<Ast> },
    /// The root: dot-separated molecules, combined additively.
    Group { parts: Seq<Ast> },
}

/// The range of the `i32` coefficient type.
pub open spec fn fits_i32(v: int) -> bool {
    -0x8000_0000 <= v <= 0x7fff_ffff
}

pub open spec fn is_digit(b: u8) -> bool {
    48 <= b <= 57
}

pub open spec fn is_upper(b: u8) -> bool {
    65 <= b <= 90
}

pub open spec fn is_lower(b: u8) -> bool {
    97 <= b <= 122
}

/// First position at or after `pos` that does not hold a decimal digit.
pub open spec fn digits_end(s: Seq<u8>, pos: int) -> int
    decreases s.len() - pos,
{
    if 0 <= pos < s.len() && is_digit(s[pos]) {
        digits_end(s, pos + 1)
    } else {
        pos
    }
}

/// First position at or after `pos` that does not hold a lowercase letter.
pub open spec fn lowers_end(s: Seq<u8>, pos: int) -> int
    decreases s.len() - pos,
{
    if 0 <= pos < s.len() && is_lower(s[pos]) {
        lowers_end(s, pos + 1)
    } else {
        pos
    }
}

/// The decimal value of the digits in `s[lo..hi]`.
pub open spec fn digits_val(s: Seq<u8>, lo: int, hi: int) -> int
    decreases hi - lo,
{
    if lo < hi {
        digits_val(s, lo, hi - 1) * 10 + (s[hi - 1] - 48)
    } else {
        0
    }
}

/// `num`, bounded by the coefficient range: the parsed value and the
/// position after it, or `None` where no digit stands at `pos` or the value
/// does not fit.
pub open spec fn spec_num(s: Seq<u8>, pos: int) -> Option<(int, int)> {
    if 0 <= pos < s.len() && is_digit(s[pos]) {
        let e: int = digits_end(s, pos);
        let v: int = digits_val(s, pos, e);
        if v <= 0x7fff_ffff {
            Some((v, e))
        } else {
            None
        }
    } else {
        None
    }
}

pub proof fn lemma_digits_end(s: Seq<u8>, pos: int)
    requires
        0 <= pos <= s.len(),
    ensures
        pos <= digits_end(s, pos) <= s.len(),
        forall|j: int| pos <= j < digits_end(s, pos) ==> is_digit(#[trigger] s[j]),
        digits_end(s, pos) == s.len() || !is_digit(s[digits_end(s, pos)]),
    decreases s.len() - pos,
{
    if pos < s.len() && is_digit(s[pos]) {
        lemma_digits_end(s, pos + 1);
    }
}

pub proof fn lemma_lowers_end(s: Seq<u8>, pos: int)
    requires
        0 <= pos <= s.len(),
    ensures
        pos <= lowers_end(s, pos) <= s.len(),
        lowers_end(s, pos) == s.len() || !is_lower(s[lowers_end(s, pos)]),
    decreases s.len() - pos,
{
    if pos < s.len() && is_lower(s[pos]) {
        lemma_lowers_end(s, pos + 1);
    }
}

pub proof fn lemma_digits_val_nonneg(s: Seq<u8>, lo: int, hi: int)
    requires
        forall|j: int| lo <= j < hi ==> is_digit(#[trigger] s[j]),
    ensures
        0 <= digits_val(s, lo, hi),
    decreases hi - lo,
{
    if lo < hi {
        lemma_digits_val_nonneg(s, lo, hi - 1);
    }
}

/// Appending digits never shrinks the value.
pub proof fn lemma_digits_val_mono(s: Seq<u8>, lo: int, h1: int, h2: int)
    requires
        lo <= h1 <= h2,
        forall|j: int| lo <= j < h2 ==> is_digit(#[trigger] s[j]),
    ensures
        digits_val(s, lo, h1) <= digits_val(s, lo, h2),
    decreases h2 - h1,
{
    if h1 < h2 {
        lemma_digits_val_mono(s, lo, h1, h2 - 1);
        lemma_digits_val_nonneg(s, lo, h2 - 1);
    }
}

/// A whole signed decimal numeral, as the coefficient type's own text
/// parsing reads it: an optional `'+'` or `'-'`, then digits up to the end
/// of the text; `None` on anything else, and on a value outside the
/// coefficient range.
pub open spec fn signed_num(s: Seq<u8>) -> Option<int> {
    let start: int = if s.len() > 0 && (s[0] == 43 || s[0] == 45) {  // '+' | '-'
        1
    } else {
        0
    };
    let sign: int = if s.len() > 0 && s[0] == 45 {
        -1
    } else {
        1
    };
    if start < s.len() && digits_end(s, start) == s.len() {
        let v: int = sign * digits_val(s, start, s.len() as int);
        if fits_i32(v) {
            Some(v)
        } else {
            None
        }
    } else {
        None
    }
}

/// `electron`: the signed charge and the position after `'>'`.
pub open spec fn spec_electron(s: Seq<u8>, pos: int) -> Option<(int, int)> {
    if 0 <= pos < s.len() && s[pos] == 60 {  // '<'
        let o: Option<(int, int)> = if pos + 1 < s.len() && is_digit(s[pos + 1]) {
            spec_num(s, pos + 1)
        } else {
            Some((1, pos + 1))
        };
        match o {
            Some((operand, p1)) => {
                if p1 < s.len() && s[p1] == 101 {  // 'e'
                    let p2: int = p1 + 1;
                    if p2 < s.len() && (s[p2] == 43 || s[p2] == 45) {  // '+' | '-'
                        let charge: int = if s[p2] == 45 {
                            -operand
                        } else {
                            operand
                        };
                        if p2 + 1 < s.len() && s[p2 + 1] == 62 {  // '>'
                            Some((charge, p2 + 2))
                        } else {
                            None
                        }
                    } else {
                        None
                    }
                } else {
                    None
                }
            },
            None => None,
        }
    } else {
        None
    }
}

/// `atom`: an element symbol with its optional multiplier.
pub open spec fn spec_atom(s: Seq<u8>, pos: int) -> Option<(Ast, int)> {
    if 0 <= pos < s.len() && is_upper(s[pos]) {
        let e: int = lowers_end(s, pos + 1);
        let name: Seq<u8> = s.subrange(pos, e);
        if e < s.len() && is_digit(s[e]) {
            match spec_num(s, e) {
                Some((v, p)) => Some((Ast::Atom { name, count: v }, p)),
                None => None,
            }
        } else {
            Some((Ast::Atom { name, count: 1 }, e))
        }
    } else {
        None
    }
}

/// True where an `atom` or `parenthesis_wrapper` can start at `pos`.
pub open spec fn item_starts(s: Seq<u8>, pos: int) -> bool {
    pos < s.len() && (is_upper(s[pos]) || s[pos] == 40)  // '(' = 40
}

/// `(atom | parenthesis_wrapper)+`.
pub open spec fn spec_items(s: Seq<u8>, pos: int) -> Option<(Seq<Ast>, int)>
    decreases s.len() - pos, 2int,
{
    if 0 <= pos <= s.len() && item_starts(s, pos) {
        let first: Option<(Ast, int)> = if is_upper(s[pos]) {
            spec_atom(s, pos)
        } else {
            spec_paren(s, pos)
        };
        match first {
            Some((a, p)) => {
                if pos < p <= s.len() {
                    if item_starts(s, p) {
                        match spec_items(s, p) {
                            Some((rest, e)) => Some((seq![a] + rest, e)),
                            None => None,
                        }
                    } else {
                        Some((seq![a], p))
                    }
                } else {
                    None
                }
            },
            None => None,
        }
    } else {
        None
    }
}

/// `molecule`: optional numeric prefix, then items, then an optional charge
/// annotation; or a bare charge annotation.
pub open spec fn spec_molecule(s: Seq<u8>, pos: int) -> Option<(Ast, int)>
    decreases s.len() - pos, 3int,
{
    if 0 <= pos <= s.len() {
        let pr: Option<(int, int)> = if pos < s.len() && is_digit(s[pos]) {
            spec_num(s, pos)
        } else {
            Some((1, pos))
        };
        match pr {
            Some((prefix, p1)) => {
                if pos <= p1 <= s.len() {
                    if item_starts(s, p1) {
                        match spec_items(s, p1) {
                            Some((parts, p2)) => {
                                if p2 < s.len() && s[p2] == 60 {  // '<'
                                    match spec_electron(s, p2) {
                                        Some((charge, p3)) => Some(
                                            (Ast::Molecule { prefix, charge, parts }, p3),
                                        ),
                                        None => None,
                                    }
                                } else {
                                    Some((Ast::Molecule { prefix, charge: 0, parts }, p2))
                                }
                            },
                            None => None,
                        }
                    } else if p1 < s.len() && s[p1] == 60 {  // '<'
                        match spec_electron(s, p1) {
                            Some((charge, p3)) => Some(
                                (Ast::Molecule { prefix, charge, parts: seq![] }, p3),
                            ),
                            None => None,
                        }
                    } else {
                        None
                    }
                } else {
                    None
                }
            },
            None => None,
        }
    } else {
        None
    }
}

/// `parenthesis_wrapper`: a parenthesised group with its optional suffix.
pub open spec fn spec_paren(s: Seq<u8>, pos: int) -> Option<(Ast, int)>
    decreases s.len() - pos, 1int,
{
    if 0 <= pos < s.len() && s[pos] == 40 {  // '('
        match spec_group(s, pos + 1) {
            Some((parts, p)) => {
                if pos + 1 <= p && p < s.len() && s[p] == 41 {  // ')'
                    let p1: int = p + 1;
                    if p1 < s.len() && is_digit(s[p1]) {
                        match spec_num(s, p1) {
                            Some((v, e)) => Some((Ast::Paren { suffix: v, parts }, e)),
                            None => None,
                        }
                    } else {
                        Some((Ast::Paren { suffix: 1, parts }, p1))
                    }
                } else {
                    None
                }
            },
            None => None,
        }
    } else {
        None
    }
}

/// `molecule_group`: one or more dot-separated molecules.
pub open spec fn spec_group(s: Seq<u8>, pos: int) -> Option<(Seq<Ast>, int)>
    decreases s.len() - pos, 4int,
{
    if 0 <= pos <= s.len() {
        match spec_molecule(s, pos) {
            Some((m, p)) => {
                if pos <= p {
                    if p < s.len() && s[p] == 46 {  // '.'
                        match spec_group(s, p + 1) {
                            Some((rest, e)) => Some((seq![m] + rest, e)),
                            None => None,
                        }
                    } else {
                        Some((seq![m], p))
                    }
                } else {
                    None
                }
            },
            None => None,
        }
    } else {
        None
    }
}

/// What a whole formula parses to: the grammar's top rule applied at the
/// start, required to consume every byte.
pub open spec fn spec_parse(s: Seq<u8>) -> Option<Ast> {
    match spec_group(s, 0) {
        Some((parts, p)) => {
            if p == s.len() {
                Some(Ast::Group { parts })
            } else {
                None
            }
        },
        None => None,
    }
}

/// An element-count mapping: symbol/count pairs in discovery order, with
/// pairwise distinct symbols.
pub type Dict = Seq<(Seq<u8>, int)>;

/// Adds `v` under `k`: updates the first pair holding `k`, or appends a new
/// pair; `None` where the updated count leaves the coefficient range.
pub open spec fn dict_add(d: Dict, k: Seq<u8>, v: int) -> Option<Dict>
    decreases d.len(),
{
    if d.len() == 0 {
        if fits_i32(v) {
            Some(seq![(k, v)])
        } else {
            None
        }
    } else if d[0].0 == k {
        if fits_i32(d[0].1 + v) {
            Some(seq![(k, d[0].1 + v)] + d.drop_first())
        } else {
            None
        }
    } else {
        match dict_add(d.drop_first(), k, v) {
            Some(r) => Some(seq![d[0]] + r),
            None => None,
        }
    }
}

/// The reserved charge ledger key `"e"`.
pub open spec fn electron_key() -> Seq<u8> {
    seq![101u8]
}

/// Depth-first reduction of a tree into a mapping, carrying the accumulated
/// multiplier; every product and running sum is checked against the
/// coefficient range, and `None` reports the first step that leaves it.
/// A molecule's charge is scaled by the molecule's own multiplier and added
/// under the charge ledger key, but only where an annotation contributed a
/// nonzero charge.
pub open spec fn eval_node(a: Ast, mult: int, d: Dict) -> Option<Dict>
    decreases a, 0int,
{
    match a {
        Ast::Atom { name, count } => {
            let prod: int = mult * count;
            if fits_i32(prod) {
                dict_add(d, name, prod)
            } else {
                None
            }
        },
        Ast::Molecule { prefix, charge, parts } => {
            let nm: int = mult * prefix;
            if fits_i32(nm) {
                if charge == 0 {
                    eval_parts(parts, 0, nm, d)
                } else {
                    let ch: int = nm * charge;
                    if fits_i32(ch) {
                        match dict_add(d, electron_key(), ch) {
                            Some(d2) => eval_parts(parts, 0, nm, d2),
                            None => None,
                        }
                    } else {
                        None
                    }
                }
            } else {
                None
            }
        },
        Ast::Paren { suffix, parts } => {
            let nm: int = mult * suffix;
            if fits_i32(nm) {
                eval_parts(parts, 0, nm, d)
            } else {
                None
            }
        },
        Ast::Group { parts } => eval_parts(parts, 0, mult, d),
    }
}

/// Reduces `parts[i..]` in order, threading the mapping through.
pub open spec fn eval_parts(parts: Seq<Ast>, i: int, mult: int, d: Dict) -> Option<Dict>
    decreases parts, parts.len() - i,
{
    if 0 <= i < parts.len() {
        match eval_node(parts[i], mult, d) {
            Some(d2) => eval_parts(parts, i + 1, mult, d2),
            None => None,
        }
    } else {
        Some(d)
    }
}

/// The whole pipeline: parse the bytes, then reduce the tree from an empty
/// mapping with multiplier one.
pub open spec fn spec_tokens(s: Seq<u8>) -> Option<Dict> {
    match spec_parse(s) {
        Some(ast) => eval_node(ast, 1, seq![]),
        None => None,
    }
}

/// The count stored under `k`, zero where the symbol is absent.
pub open spec fn dict_get(d: Dict, k: Seq<u8>) -> int
    decreases d.len(),
{
    if d.len() == 0 {
        0
    } else if d[0].0 == k {
        d[0].1
    } else {
        dict_get(d.drop_first(), k)
    }
}

/// How `dict_add` changes each stored count: the added key's count grows by
/// `v`, every other count stands.
pub proof fn lemma_dict_add_get(d: Dict, k: Seq<u8>, v: int, k2: Seq<u8>)
    ensures
        dict_add(d, k, v) matches Some(r) ==> dict_get(r, k2) == dict_get(d, k2) + (if k2 == k {
            v
        } else {
            0
        }),
    decreases d.len(),
{
    if d.len() == 0 {
        if fits_i32(v) {
            let r = seq![(k, v)];
            assert(r.drop_first() =~= Seq::<(Seq<u8>, int)>::empty());
            assert(dict_get(Seq::<(Seq<u8>, int)>::empty(), k2) == 0);
            assert(r[0] == (k, v));
            assert(dict_get(r, k2) == if k2 == k {
                v
            } else {
                0int
            });
        }
    } else if d[0].0 == k {
        if fits_i32(d[0].1 + v) {
            let r = seq![(k, d[0].1 + v)] + d.drop_first();
            assert(r[0] == (k, d[0].1 + v));
            assert(r.drop_first() =~= d.drop_first());
            if k2 == k {
                assert(dict_get(r, k2) == d[0].1 + v);
                assert(dict_get(d, k2) == d[0].1);
            } else {
                assert(dict_get(r, k2) == dict_get(d.drop_first(), k2));
                assert(dict_get(d, k2) == dict_get(d.drop_first(), k2));
            }
        }
    } else {
        let dt = d.drop_first();
        lemma_dict_add_get(dt, k, v, k2);
        if let Some(rt) = dict_add(dt, k, v) {
            let r = seq![d[0]] + rt;
            assert(r[0] == d[0]);
            assert(r.drop_first() =~= rt);
            if d[0].0 == k2 {
                assert(dict_get(r, k2) == d[0].1);
                assert(dict_get(d, k2) == d[0].1);
                assert(k2 != k);
            } else {
                assert(dict_get(r, k2) == dict_get(rt, k2));
                assert(dict_get(d, k2) == dict_get(dt, k2));
            }
        }
    }
}

/// The sum, over every molecule in the tree, of its accumulated multiplier
/// times its charge.
pub open spec fn charge_sum(a: Ast, mult: int) -> int
    decreases a, 0int,
{
    match a {
        Ast::Atom { name: _, count: _ } => 0,
        Ast::Molecule { prefix, charge, parts } => mult * prefix * charge + charge_sum_parts(
            parts,
            0,
            mult * prefix,
        ),
        Ast::Paren { suffix, parts } => charge_sum_parts(parts, 0, mult * suffix),
        Ast::Group { parts } => charge_sum_parts(parts, 0, mult),
    }
}

/// The charge sum over `parts[i..]`.
pub open spec fn charge_sum_parts(parts: Seq<Ast>, i: int, mult: int) -> int
    decreases parts, parts.len() - i,
{
    if 0 <= i < parts.len() {
        charge_sum(parts[i], mult) + charge_sum_parts(parts, i + 1, mult)
    } else {
        0
    }
}

/// No atom in the tree carries the reserved charge ledger key as its
/// symbol.
pub open spec fn ast_names_ok(a: Ast) -> bool
    decreases a, 0int,
{
    match a {
        Ast::Atom { name, count: _ } => name != electron_key(),
        Ast::Molecule { prefix: _, charge: _, parts } => parts_names_ok(parts, 0),
        Ast::Paren { suffix: _, parts } => parts_names_ok(parts, 0),
        Ast::Group { parts } => parts_names_ok(parts, 0),
    }
}

/// [`ast_names_ok`] over `parts[i..]`.
pub open spec fn parts_names_ok(parts: Seq<Ast>, i: int) -> bool
    decreases parts, parts.len() - i,
{
    if 0 <= i < parts.len() {
        ast_names_ok(parts[i]) && parts_names_ok(parts, i + 1)
    } else {
        true
    }
}

/// [`parts_names_ok`] is exactly "every element from `i` on is clean".
pub proof fn lemma_parts_names_iff(parts: Seq<Ast>, i: int)
    requires
        0 <= i,
    ensures
        parts_names_ok(parts, i) <==> (forall|j: int|
            i <= j < parts.len() ==> ast_names_ok(#[trigger] parts[j])),
    decreases parts.len() - i,
{
    if i < parts.len() {
        lemma_parts_names_iff(parts, i + 1);
    }
}

/// Reduction books charges on the ledger key and nothing else there: where
/// no atom carries the ledger key as its symbol, the reduced mapping's
/// count under that key grows by exactly the tree's charge sum.
pub proof fn lemma_eval_charge(a: Ast, mult: int, d: Dict)
    requires
        ast_names_ok(a),
    ensures
        eval_node(a, mult, d) matches Some(d2) ==> dict_get(d2, electron_key()) == dict_get(
            d,
            electron_key(),
        ) + charge_sum(a, mult),
    decreases a, 0int,
{
    match a {
        Ast::Atom { name, count } => {
            let prod = mult * count;
            if fits_i32(prod) {
                lemma_dict_add_get(d, name, prod, electron_key());
            }
        },
        Ast::Molecule { prefix, charge, parts } => {
            let nm = mult * prefix;
            if fits_i32(nm) {
                if charge == 0 {
                    lemma_eval_charge_parts(parts, 0, nm, d);
                } else {
                    let ch = nm * charge;
                    if fits_i32(ch) {
                        lemma_dict_add_get(d, electron_key(), ch, electron_key());
                        if let Some(dm) = dict_add(d, electron_key(), ch) {
                            lemma_eval_charge_parts(parts, 0, nm, dm);
                        }
                    }
                }
            }
        },
        Ast::Paren { suffix, parts } => {
            let nm = mult * suffix;
            if fits_i32(nm) {
                lemma_eval_charge_parts(parts, 0, nm, d);
            }
        },
        Ast::Group { parts } => {
            lemma_eval_charge_parts(parts, 0, mult, d);
        },
    }
}

/// Companion of [`lemma_eval_charge`] for child lists.
pub proof fn lemma_eval_charge_parts(parts: Seq<Ast>, i: int, mult: int, d: Dict)
    requires
        parts_names_ok(parts, i),
        0 <= i,
    ensures
        eval_parts(parts, i, mult, d) matches Some(d2) ==> dict_get(d2, electron_key())
            == dict_get(d, electron_key()) + charge_sum_parts(parts, i, mult),
    decreases parts, parts.len() - i,
{
    if i < parts.len() {
        lemma_eval_charge(parts[i], mult, d);
        if let Some(dm) = eval_node(parts[i], mult, d) {
            lemma_eval_charge_parts(parts, i + 1, mult, dm);
        }
    }
}

/// An element symbol read by the grammar starts with an uppercase letter,
/// so it is never the ledger key.
pub proof fn lemma_atom_names(s: Seq<u8>, pos: int)
    ensures
        spec_atom(s, pos) matches Some(r) ==> ast_names_ok(r.0),
{
    if 0 <= pos < s.len() && is_upper(s[pos]) {
        lemma_lowers_end(s, pos + 1);
        let e: int = lowers_end(s, pos + 1);
        let name: Seq<u8> = s.subrange(pos, e);
        assert(name.len() >= 1);
        assert(name[0] == s[pos]);
        assert(electron_key()[0] == 101u8);
        assert(name != electron_key()) by {
            if name == electron_key() {
                assert(name[0] == 101u8);
            }
        }
    }
}

/// Companion for item lists: every item the grammar reads is clean.
pub proof fn lemma_items_names(s: Seq<u8>, pos: int)
    ensures
        spec_items(s, pos) matches Some(r) ==> parts_names_ok(r.0, 0),
    decreases s.len() - pos, 2int,
{
    if 0 <= pos <= s.len() && item_starts(s, pos) {
        let first: Option<(Ast, int)> = if is_upper(s[pos]) {
            spec_atom(s, pos)
        } else {
            spec_paren(s, pos)
        };
        if is_upper(s[pos]) {
            lemma_atom_names(s, pos);
        } else {
            lemma_paren_names(s, pos);
        }
        if let Some((a, p)) = first {
            if pos < p <= s.len() {
                if item_starts(s, p) {
                    lemma_items_names(s, p);
                    if let Some((rest, _)) = spec_items(s, p) {
                        lemma_parts_names_iff(rest, 0);
                        lemma_parts_names_iff(seq![a] + rest, 0);
                        assert(forall|j: int|
                            0 <= j < (seq![a] + rest).len() ==> ast_names_ok(
                                #[trigger] (seq![a] + rest)[j],
                            ));
                    }
                } else {
                    lemma_parts_names_iff(seq![a], 0);
                    assert(seq![a][0] == a);
                }
            }
        }
    }
}

/// Companion for molecules.
pub proof fn lemma_molecule_names(s: Seq<u8>, pos: int)
    ensures
        spec_molecule(s, pos) matches Some(r) ==> ast_names_ok(r.0),
    decreases s.len() - pos, 3int,
{
    if 0 <= pos <= s.len() {
        let pr: Option<(int, int)> = if pos < s.len() && is_digit(s[pos]) {
            spec_num(s, pos)
        } else {
            Some((1, pos))
        };
        if let Some((_, p1)) = pr {
            if pos <= p1 <= s.len() {
                if item_starts(s, p1) {
                    lemma_items_names(s, p1);
                } else {
                    assert(parts_names_ok(Seq::<Ast>::empty(), 0));
                }
            }
        }
    }
}

/// Companion for parenthesised groups.
pub proof fn lemma_paren_names(s: Seq<u8>, pos: int)
    ensures
        spec_paren(s, pos) matches Some(r) ==> ast_names_ok(r.0),
    decreases s.len() - pos, 1int,
{
    if 0 <= pos < s.len() && s[pos] == 40 {
        lemma_group_names(s, pos + 1);
    }
}

/// Companion for dot-separated molecule lists.
pub proof fn lemma_group_names(s: Seq<u8>, pos: int)
    ensures
        spec_group(s, pos) matches Some(r) ==> parts_names_ok(r.0, 0),
    decreases s.len() - pos, 4int,
{
    if 0 <= pos <= s.len() {
        lemma_molecule_names(s, pos);
        if let Some((m, p)) = spec_molecule(s, pos) {
            if pos <= p {
                if p < s.len() && s[p] == 46 {
                    lemma_group_names(s, p + 1);
                    if let Some((rest, _)) = spec_group(s, p + 1) {
                        lemma_parts_names_iff(rest, 0);
                        lemma_parts_names_iff(seq![m] + rest, 0);
                        assert(forall|j: int|
                            0 <= j < (seq![m] + rest).len() ==> ast_names_ok(
                                #[trigger] (seq![m] + rest)[j],
                            ));
                    }
                } else {
                    lemma_parts_names_iff(seq![m], 0);
                    assert(seq![m][0] == m);
                }
            }
        }
    }
}

/// A parsed formula's tree never carries the ledger key as an atom symbol.
pub proof fn lemma_parse_names(s: Seq<u8>)
    ensures
        spec_parse(s) matches Some(ast) ==> ast_names_ok(ast),
{
    lemma_group_names(s, 0);
}

/// The charge ledger law: in the mapping a parsed formula reduces to, the
/// count under the reserved key `"e"` is exactly the sum over every
/// molecule of its accumulated multiplier times its charge annotation
/// (zero where absent) — charge annotations land on the ledger key alone,
/// and no element symbol ever adds to it.
pub proof fn lemma_charge_ledger(s: Seq<u8>, ast: Ast, d: Dict)
    requires
        spec_parse(s) == Some(ast),
        eval_node(ast, 1, Seq::empty()) == Some(d),
    ensures
        dict_get(d, electron_key()) == charge_sum(ast, 1),
{
    lemma_parse_names(s);
    lemma_eval_charge(ast, 1, Seq::empty());
    assert(dict_get(Seq::<(Seq<u8>, int)>::empty(), electron_key()) == 0);
}

/// [`lemma_dict_add_get`] over every key at once.
pub proof fn lemma_dict_add_get_all(d: Dict, k: Seq<u8>, v: int, r: Dict)
    requires
        dict_add(d, k, v) == Some(r),
    ensures
        forall|k2: Seq<u8>|
            #![trigger dict_get(r, k2)]
            dict_get(r, k2) == dict_get(d, k2) + (if k2 == k {
                v
            } else {
                0
            }),
{
    assert forall|k2: Seq<u8>| #![trigger dict_get(r, k2)]
        dict_get(r, k2) == dict_get(d, k2) + (if k2 == k {
            v
        } else {
            0int
        }) by {
        lemma_dict_add_get(d, k, v, k2);
    }
}

/// What reduction adds under each key does not depend on what the mapping
/// already holds: two successful runs of one tree from two accumulators
/// add the same amount everywhere.
pub proof fn lemma_eval_delta(a: Ast, mult: int, d1: Dict, d2: Dict, r1: Dict, r2: Dict)
    requires
        eval_node(a, mult, d1) == Some(r1),
        eval_node(a, mult, d2) == Some(r2),
    ensures
        forall|k: Seq<u8>|
            #![trigger dict_get(r1, k)]
            dict_get(r1, k) - dict_get(d1, k) == dict_get(r2, k) - dict_get(d2, k),
    decreases a, 0int,
{
    match a {
        Ast::Atom { name, count } => {
            let prod = mult * count;
            lemma_dict_add_get_all(d1, name, prod, r1);
            lemma_dict_add_get_all(d2, name, prod, r2);
        },
        Ast::Molecule { prefix, charge, parts } => {
            let nm = mult * prefix;
            if charge == 0 {
                lemma_eval_delta_parts(parts, 0, nm, d1, d2, r1, r2);
            } else {
                let ch = nm * charge;
                if let Some(m1) = dict_add(d1, electron_key(), ch) {
                    if let Some(m2) = dict_add(d2, electron_key(), ch) {
                        lemma_dict_add_get_all(d1, electron_key(), ch, m1);
                        lemma_dict_add_get_all(d2, electron_key(), ch, m2);
                        lemma_eval_delta_parts(parts, 0, nm, m1, m2, r1, r2);
                    }
                }
            }
        },
        Ast::Paren { suffix, parts } => {
            let nm = mult * suffix;
            lemma_eval_delta_parts(parts, 0, nm, d1, d2, r1, r2);
        },
        Ast::Group { parts } => {
            lemma_eval_delta_parts(parts, 0, mult, d1, d2, r1, r2);
        },
    }
}

/// Companion of [`lemma_eval_delta`] for child lists.
pub proof fn lemma_eval_delta_parts(
    parts: Seq<Ast>,
    i: int,
    mult: int,
    d1: Dict,
    d2: Dict,
    r1: Dict,
    r2: Dict,
)
    requires
        eval_parts(parts, i, mult, d1) == Some(r1),
        eval_parts(parts, i, mult, d2) == Some(r2),
    ensures
        forall|k: Seq<u8>|
            #![trigger dict_get(r1, k)]
            dict_get(r1, k) - dict_get(d1, k) == dict_get(r2, k) - dict_get(d2, k),
    decreases parts, parts.len() - i,
{
    if 0 <= i < parts.len() {
        if let Some(m1) = eval_node(parts[i], mult, d1) {
            if let Some(m2) = eval_node(parts[i], mult, d2) {
                lemma_eval_delta(parts[i], mult, d1, d2, m1, m2);
                lemma_eval_delta_parts(parts, i + 1, mult, m1, m2, r1, r2);
            }
        }
    }
}

/// Reducing a concatenated list is reducing the first list, then the
/// second from where it left off.
pub proof fn lemma_eval_parts_append(pf: Seq<Ast>, pg: Seq<Ast>, i: int, mult: int, d: Dict)
    requires
        0 <= i <= pf.len(),
    ensures
        eval_parts(pf + pg, i, mult, d) == (match eval_parts(pf, i, mult, d) {
            Some(dm) => eval_parts(pg, 0, mult, dm),
            None => None,
        }),
    decreases pf.len() - i,
{
    let whole = pf + pg;
    if i < pf.len() {
        assert(whole[i] == pf[i]);
        if let Some(dm) = eval_node(pf[i], mult, d) {
            lemma_eval_parts_append(pf, pg, i + 1, mult, dm);
        }
    } else {
        lemma_eval_parts_shift(pf, pg, 0, mult, d);
    }
}

/// Positions past the first list's length read the second list alone.
pub proof fn lemma_eval_parts_shift(pf: Seq<Ast>, pg: Seq<Ast>, j: int, mult: int, d: Dict)
    requires
        0 <= j,
    ensures
        eval_parts(pf + pg, pf.len() + j, mult, d) == eval_parts(pg, j, mult, d),
    decreases pg.len() - j,
{
    let whole = pf + pg;
    if j < pg.len() {
        assert(whole[pf.len() + j] == pg[j]);
        if let Some(dm) = eval_node(pg[j], mult, d) {
            lemma_eval_parts_shift(pf, pg, j + 1, mult, dm);
        }
    }
}

/// The hydrate law: dot-separated molecules are additive, not nested.
/// Split a group's molecules anywhere; where the whole group and both
/// halves (as groups of their own) reduce, the whole mapping's count under
/// every key is the pointwise sum of the halves' counts.
pub proof fn lemma_group_additive(pf: Seq<Ast>, pg: Seq<Ast>, d: Dict, df: Dict, dg: Dict)
    requires
        eval_node(Ast::Group { parts: pf + pg }, 1, Seq::empty()) == Some(d),
        eval_node(Ast::Group { parts: pf }, 1, Seq::empty()) == Some(df),
        eval_node(Ast::Group { parts: pg }, 1, Seq::empty()) == Some(dg),
    ensures
        forall|k: Seq<u8>|
            #![trigger dict_get(d, k)]
            dict_get(d, k) == dict_get(df, k) + dict_get(dg, k),
{
    let e: Dict = Seq::empty();
    lemma_eval_parts_append(pf, pg, 0, 1, e);
    assert(eval_parts(pf, 0, 1, e) == Some(df));
    assert(eval_parts(pg, 0, 1, e) == Some(dg));
    assert(eval_parts(pg, 0, 1, df) == Some(d));
    lemma_eval_delta_parts(pg, 0, 1, df, e, d, dg);
    assert forall|k: Seq<u8>| #![trigger dict_get(d, k)]
        dict_get(d, k) == dict_get(df, k) + dict_get(dg, k) by {
        assert(dict_get(d, k) - dict_get(df, k) == dict_get(dg, k) - dict_get(e, k));
        assert(dict_get(e, k) == 0);
    }
}

/// `dict_add` where the key already stands at index `i`: the count there is
/// updated in place and nothing else moves.
pub proof fn lemma_dict_add_found(d: Dict, k: Seq<u8>, v: int, i: int)
    requires
        0 <= i < d.len(),
        d[i].0 == k,
        forall|j: int| 0 <= j < i ==> (#[trigger] d[j]).0 != k,
    ensures
        dict_add(d, k, v) == if fits_i32(d[i].1 + v) {
            Some(d.update(i, (k, d[i].1 + v)))
        } else {
            Option::<Dict>::None
        },
    decreases i,
{
    if i == 0 {
        if fits_i32(d[0].1 + v) {
            assert(seq![(k, d[0].1 + v)] + d.drop_first() =~= d.update(0, (k, d[0].1 + v)));
        }
    } else {
        assert(d[0].0 != k);
        let dt = d.drop_first();
        assert(forall|j: int| 0 <= j < i - 1 ==> (#[trigger] dt[j]).0 != k);
        lemma_dict_add_found(dt, k, v, i - 1);
        if fits_i32(d[i].1 + v) {
            assert(seq![d[0]] + dt.update(i - 1, (k, dt[i - 1].1 + v)) =~= d.update(
                i,
                (k, d[i].1 + v),
            ));
        }
    }
}

/// `dict_add` where the key is absent: the pair is appended.
pub proof fn lemma_dict_add_absent(d: Dict, k: Seq<u8>, v: int)
    requires
        forall|j: int| 0 <= j < d.len() ==> (#[trigger] d[j]).0 != k,
        fits_i32(v),
    ensures
        dict_add(d, k, v) == Some(d.push((k, v))),
    decreases d.len(),
{
    if d.len() == 0 {
        assert(seq![(k, v)] =~= d.push((k, v)));
    } else {
        let dt = d.drop_first();
        lemma_dict_add_absent(dt, k, v);
        assert(seq![d[0]] + dt.push((k, v)) =~= d.push((k, v)));
    }
}

/// `dict_add` keeps the key order: the result's symbols are the old ones,
/// with the key appended where it was new.
pub proof fn lemma_dict_add_keys(d: Dict, k: Seq<u8>, v: int)
    ensures
        dict_add(d, k, v) matches Some(r) ==> r.len() == d.len() || r.len() == d.len() + 1,
        dict_add(d, k, v) matches Some(r) ==> forall|j: int|
            0 <= j < d.len() ==> (#[trigger] r[j]).0 == d[j].0,
    decreases d.len(),
{
    if d.len() == 0 {
    } else if d[0].0 == k {
    } else {
        lemma_dict_add_keys(d.drop_first(), k, v);
    }
}

} // verus!
