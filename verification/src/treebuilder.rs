//! Recursive-descent construction of the arena tree from formula text.
//!
//! Each grammar rule has one builder function; each is proved to recognise
//! exactly what the corresponding spec-level rule in [`crate::grammar`]
//! describes, and to append exactly the nodes whose abstraction is the rule's
//! abstract tree. Before recursing into a sub-token the cursor is restored to
//! the parent under construction, so every sibling attaches to the same
//! parent however deep the previous sibling's recursion moved the cursor.

use crate::failures::ErrorCases;
use crate::grammar::{
    digits_end, digits_val, fits_i32, is_digit, is_lower, is_upper, lemma_digits_end,
    lemma_digits_val_mono, lowers_end, signed_num, spec_atom, spec_electron, spec_group,
    spec_items, spec_molecule, spec_num, spec_paren, spec_parse, Ast,
};
use crate::node::NodeType;
use crate::tree::{
    abs_list, abs_node, appended_node, children_ok, extended_under, grown_under,
    lemma_abs_list_frame, lemma_abs_list_push, lemma_appended_grown, lemma_extended_trans,
    nodes_frozen, ASTTree, Node,
};
use vstd::prelude::*;
use vstd::string::{StrSliceExecFns, StringExecFns, StringSliceAdditionalSpecFns};

verus! {

/// Builds an [`ASTTree`] from formula text in one pass over a shared cursor.
pub struct ASTTreeBuilder;

fn is_digit_b(b: u8) -> (r: bool)
    ensures
        r == is_digit(b),
{
    48 <= b && b <= 57
}

fn is_upper_b(b: u8) -> (r: bool)
    ensures
        r == is_upper(b),
{
    65 <= b && b <= 90
}

fn is_lower_b(b: u8) -> (r: bool)
    ensures
        r == is_lower(b),
{
    97 <= b && b <= 122
}

/// Scans the run of lowercase letters starting at `pos`.
fn scan_lowers(s: &Vec<u8>, pos: usize) -> (e: usize)
    requires
        pos <= s@.len(),
    ensures
        e as int == lowers_end(s@, pos as int),
        pos <= e <= s@.len(),
{
    let n = s.len();
    let mut i: usize = pos;
    while i < n && is_lower_b(s[i])
        invariant
            pos <= i <= n,
            n == s@.len(),
            lowers_end(s@, pos as int) == lowers_end(s@, i as int),
        decreases n - i,
    {
        i += 1;
    }
    proof {
        crate::grammar::lemma_lowers_end(s@, i as int);
    }
    i
}

/// Scans a `num` token: the decimal run starting at `pos`, parsed into the
/// coefficient type; a value past the type's range is a parse failure.
fn scan_num(s: &Vec<u8>, pos: usize) -> (r: Result<(i32, usize), ErrorCases>)
    requires
        pos < s@.len(),
        is_digit(s@[pos as int]),
    ensures
        match spec_num(s@, pos as int) {
            Some((v, e)) => r matches Ok(p) && p.0 as int == v && p.1 as int == e && 0 <= v
                && (pos as int) < e <= s@.len(),
            None => r matches Err(x) && x is ParserError,
        },
{
    let ghost gend = digits_end(s@, pos as int);
    proof {
        lemma_digits_end(s@, pos as int);
    }
    let n = s.len();
    let mut acc: i32 = 0;
    let mut i: usize = pos;
    while i < n && is_digit_b(s[i])
        invariant
            pos <= i <= n,
            n == s@.len(),
            gend == digits_end(s@, pos as int),
            pos <= gend <= n,
            i <= gend,
            forall|j: int| pos <= j < gend ==> is_digit(#[trigger] s@[j]),
            gend == s@.len() || !is_digit(s@[gend as int]),
            digits_end(s@, i as int) == gend,
            0 <= acc,
            acc as int == digits_val(s@, pos as int, i as int),
        decreases n - i,
    {
        let d: i32 = (s[i] - 48) as i32;
        let step = match acc.checked_mul(10) {
            Some(a10) => a10.checked_add(d),
            None => None,
        };
        match step {
            Some(a2) => {
                acc = a2;
            },
            None => {
                proof {
                    assert(digits_val(s@, pos as int, i + 1) == digits_val(
                        s@,
                        pos as int,
                        i as int,
                    ) * 10 + (s@[i as int] - 48));
                    assert(digits_val(s@, pos as int, i + 1) > 0x7fff_ffff);
                    lemma_digits_val_mono(s@, pos as int, i + 1, gend);
                    assert(digits_val(s@, pos as int, gend) > 0x7fff_ffff);
                }
                return Err(ErrorCases::ParserError("numeric literal out of range".to_owned()));
            },
        }
        i += 1;
    }
    proof {
        assert(i as int == gend);
    }
    Ok((acc, i))
}

/// Scans an `electron` annotation starting at its `'<'` and returns the
/// signed charge it denotes and the position after `'>'`.
fn scan_electron(s: &Vec<u8>, pos: usize) -> (r: Result<(i32, usize), ErrorCases>)
    requires
        pos < s@.len(),
        s@[pos as int] == 60,
    ensures
        match spec_electron(s@, pos as int) {
            Some((c, e)) => r matches Ok(p) && p.0 as int == c && p.1 as int == e && (pos as int)
                < e <= s@.len(),
            None => r matches Err(x) && x is ParserError,
        },
{
    let n = s.len();
    let operand: i32;
    let p1: usize;
    if pos + 1 < n && is_digit_b(s[pos + 1]) {
        match scan_num(s, pos + 1) {
            Ok((v, e)) => {
                operand = v;
                p1 = e;
            },
            Err(x) => {
                return Err(x);
            },
        }
    } else {
        operand = 1;
        p1 = pos + 1;
    }
    if !(p1 < n && s[p1] == 101) {  // 'e'
        return Err(ErrorCases::ParserError("malformed charge annotation".to_owned()));
    }
    let p2 = p1 + 1;
    if !(p2 < n && (s[p2] == 43 || s[p2] == 45)) {  // '+' | '-'
        return Err(ErrorCases::ParserError("malformed charge annotation".to_owned()));
    }
    let charge: i32 = if s[p2] == 45 {
        -operand
    } else {
        operand
    };
    if !(p2 + 1 < n && s[p2 + 1] == 62) {  // '>'
        return Err(ErrorCases::ParserError("malformed charge annotation".to_owned()));
    }
    Ok((charge, p2 + 2))
}

/// The diagnostic for text the numeral parser rejects.
fn cant_parse(s: &str) -> (r: ErrorCases)
    ensures
        r is ParserError,
{
    ErrorCases::ParserError("Can't parse '".to_owned().concat(s).concat("'"))
}

impl ASTTreeBuilder {
    /// A fresh builder.
    pub fn new() -> (r: Self) {
        Self {  }
    }

    /// Parses a whole signed decimal numeral into the coefficient type, as
    /// the type's own text parsing reads it: an optional leading `'+'` or
    /// `'-'`, then digits. Anything else, or a value past the type's range,
    /// is a parse failure.
    pub fn parse_from(&self, s: &str) -> (r: Result<i32, ErrorCases>)
        ensures
            match signed_num(s.spec_bytes()) {
                Some(v) => r matches Ok(x) && x as int == v,
                None => r matches Err(x) && x is ParserError,
            },
    {
        let b = s.as_bytes_vec();
        let n = b.len();
        let negv: bool;
        let start: usize;
        if n > 0 && (b[0] == 43 || b[0] == 45) {  // '+' | '-'
            negv = b[0] == 45;
            start = 1;
        } else {
            negv = false;
            start = 0;
        }
        if !(start < n && is_digit_b(b[start])) {
            return Err(cant_parse(s));
        }
        let ghost gend = digits_end(b@, start as int);
        proof {
            lemma_digits_end(b@, start as int);
        }
        let mut acc: i64 = 0;
        let mut i: usize = start;
        while i < n && is_digit_b(b[i])
            invariant
                start <= i <= n,
                n == b@.len(),
                gend == digits_end(b@, start as int),
                start <= gend <= n,
                i <= gend,
                forall|j: int| start <= j < gend ==> is_digit(#[trigger] b@[j]),
                gend == b@.len() || !is_digit(b@[gend as int]),
                digits_end(b@, i as int) == gend,
                0 <= acc <= 0x8000_0000,
                acc as int == digits_val(b@, start as int, i as int),
                b@ == s.spec_bytes(),
                start == 0 || start == 1,
                start == 0 ==> !negv && !(b@.len() > 0 && (b@[0] == 43 || b@[0] == 45)),
                start == 1 ==> b@.len() > 0 && (b@[0] == 43 || b@[0] == 45) && negv == (b@[0]
                    == 45),
            decreases n - i,
        {
            let d: i64 = (b[i] - 48) as i64;
            acc = acc * 10 + d;
            i += 1;
            if acc > 0x8000_0000 {
                proof {
                    assert(acc as int == digits_val(b@, start as int, i as int));
                    lemma_digits_val_mono(b@, start as int, i as int, gend);
                    assert(digits_val(b@, start as int, gend) > 0x8000_0000);
                    assert(start < gend);
                    assert(b@.len() > 0);
                    let sstart: int = if b@.len() > 0 && (b@[0] == 43 || b@[0] == 45) {
                        1int
                    } else {
                        0int
                    };
                    let ssign: int = if b@.len() > 0 && b@[0] == 45 {
                        -1int
                    } else {
                        1int
                    };
                    assert(sstart == start as int);
                    assert(negv ==> ssign == -1);
                    assert(!negv ==> ssign == 1);
                    if gend == b@.len() {
                        let val: int = digits_val(b@, start as int, b@.len() as int);
                        assert(val > 0x8000_0000);
                        assert((1int) * val == val);
                        assert((-1int) * val == -val);
                        assert(!fits_i32(val));
                        assert(!fits_i32(-val));
                        assert(!fits_i32(ssign * val));
                    }
                    assert(signed_num(b@) is None);
                }
                return Err(cant_parse(s));
            }
        }
        proof {
            assert(i as int == gend);
        }
        if i != n {
            proof {
                assert(signed_num(b@) is None);
            }
            return Err(cant_parse(s));
        }
        proof {
            assert(digits_end(b@, start as int) == b@.len());
            let val: int = digits_val(b@, start as int, b@.len() as int);
            assert(acc as int == val);
            assert((1int) * val == val);
            assert((-1int) * val == -val);
        }
        if negv {
            if acc == 0x8000_0000 {
                Ok(i32::MIN)
            } else {
                Ok(-(acc as i32))
            }
        } else {
            if acc > 0x7fff_ffff {
                proof {
                    assert(signed_num(b@) is None);
                }
                Err(cant_parse(s))
            } else {
                Ok(acc as i32)
            }
        }
    }

    /// `atom`: reads the element symbol and its optional count and appends
    /// one `Atom` node under the cursor.
    fn build_atom(&self, s: &Vec<u8>, pos: usize, tree: &mut ASTTree) -> (r: Result<
        usize,
        ErrorCases,
    >)
        requires
            old(tree).wf(),
            pos <= s@.len(),
        ensures
            final(tree).wf(),
            match spec_atom(s@, pos as int) {
                Some((a, p)) => {
                    &&& r matches Ok(q) && q as int == p
                    &&& (pos as int) < p <= s@.len()
                    &&& grown_under(
                        old(tree)@,
                        final(tree)@,
                        old(tree).spec_cursor(),
                        old(tree)@.len() as int,
                    )
                    &&& abs_node(final(tree)@, old(tree)@.len() as int) == a
                },
                None => r matches Err(e) && e is ParserError,
            },
    {
        let n = s.len();
        if !(pos < n && is_upper_b(s[pos])) {
            return Err(ErrorCases::ParserError("expected an element symbol".to_owned()));
        }
        let e = scan_lowers(s, pos + 1);
        let mut name: Vec<u8> = Vec::new();
        proof {
            assert(name@ =~= s@.subrange(pos as int, pos as int));
        }
        let mut j: usize = pos;
        while j < e
            invariant
                pos <= j <= e <= s@.len(),
                name@ == s@.subrange(pos as int, j as int),
            decreases e - j,
        {
            name.push(s[j]);
            proof {
                assert(name@ =~= s@.subrange(pos as int, j + 1));
            }
            j += 1;
        }
        let count: i32;
        let pend: usize;
        if e < n && is_digit_b(s[e]) {
            match scan_num(s, e) {
                Ok((v, p2)) => {
                    count = v;
                    pend = p2;
                },
                Err(x) => {
                    return Err(x);
                },
            }
        } else {
            count = 1;
            pend = e;
        }
        let ghost gname = name@;
        let idx = match tree.new_node(NodeType::Atom(name, count)) {
            Ok(x) => x,
            Err(x) => {
                proof {
                    assert(false);
                }
                return Err(x);
            },
        };
        proof {
            let pre = old(tree)@;
            let post = tree@;
            let parent = old(tree).spec_cursor();
            assert(pre.len() <= usize::MAX);
            lemma_appended_grown(pre, post, parent);
            assert(post[idx as int].children@ =~= Seq::<usize>::empty());
            assert(abs_node(post, idx as int) == Ast::Atom { name: gname, count: count as int });
        }
        Ok(pend)
    }

    /// `(atom | parenthesis_wrapper)+`: builds each item as a child of
    /// `parent`, restoring the cursor to `parent` before each one.
    fn build_items(&self, s: &Vec<u8>, pos: usize, tree: &mut ASTTree, parent: usize) -> (r:
        Result<usize, ErrorCases>)
        requires
            old(tree).wf(),
            pos <= s@.len(),
            (parent as int) < old(tree)@.len(),
        ensures
            final(tree).wf(),
            match spec_items(s@, pos as int) {
                Some((parts, p)) => {
                    &&& r matches Ok(q) && q as int == p
                    &&& (pos as int) < p <= s@.len()
                    &&& extended_under(old(tree)@, final(tree)@, parent as int)
                    &&& abs_list(
                        final(tree)@,
                        parent as int,
                        final(tree)@[parent as int].children@,
                    ) == abs_list(
                        old(tree)@,
                        parent as int,
                        old(tree)@[parent as int].children@,
                    ) + parts
                },
                None => r matches Err(e) && e is ParserError,
            },
        decreases s@.len() - pos, 2int,
    {
        let n = s.len();
        if !(pos < n && (is_upper_b(s[pos]) || s[pos] == 40)) {
            return Err(ErrorCases::ParserError("expected an atom or a group".to_owned()));
        }
        match tree.change_index(parent) {
            Ok(()) => {},
            Err(x) => {
                proof {
                    assert(false);
                }
                return Err(x);
            },
        }
        let ghost pre = old(tree)@;
        let first = if is_upper_b(s[pos]) {
            self.build_atom(s, pos, tree)
        } else {
            self.build_paren(s, pos, tree)
        };
        let p = match first {
            Ok(p) => p,
            Err(x) => {
                return Err(x);
            },
        };
        let ghost mid = tree@;
        let ghost root1 = pre.len() as int;
        let ghost a1 = abs_node(mid, root1);
        proof {
            tree.len_bound();
            assert(pre.len() <= usize::MAX);
            assert(grown_under(pre, mid, parent as int, root1));
            assert(mid[parent as int].children@ == pre[parent as int].children@.push(
                pre.len() as usize,
            ));
            assert(children_ok(pre, parent as int));
            assert(forall|k: int|
                0 <= k < pre[parent as int].children@.len() ==> (parent as int)
                    < #[trigger] pre[parent as int].children@[k] < pre.len());
            lemma_abs_list_push(
                mid,
                parent as int,
                pre[parent as int].children@,
                pre.len() as usize,
            );
            assert(nodes_frozen(pre, mid, parent + 1));
            lemma_abs_list_frame(pre, mid, parent as int, pre[parent as int].children@);
            assert(abs_list(mid, parent as int, mid[parent as int].children@) == abs_list(
                pre,
                parent as int,
                pre[parent as int].children@,
            ) + seq![a1]);
        }
        if p < n && (is_upper_b(s[p]) || s[p] == 40) {
            let e = match self.build_items(s, p, tree, parent) {
                Ok(e) => e,
                Err(x) => {
                    return Err(x);
                },
            };
            proof {
                let fin = tree@;
                lemma_extended_trans(pre, mid, fin, parent as int);
                if let Some((rest, _)) = spec_items(s@, p as int) {
                    assert(abs_list(fin, parent as int, fin[parent as int].children@) == abs_list(
                        mid,
                        parent as int,
                        mid[parent as int].children@,
                    ) + rest);
                    assert((abs_list(pre, parent as int, pre[parent as int].children@) + seq![a1])
                        + rest =~= abs_list(pre, parent as int, pre[parent as int].children@) + (
                    seq![a1] + rest));
                }
            }
            Ok(e)
        } else {
            Ok(p)
        }
    }

    /// `parenthesis_wrapper`: appends one wrapper node under the cursor,
    /// builds the inner group beneath it, then fills in the suffix that the
    /// text reveals after the closing parenthesis.
    fn build_paren(&self, s: &Vec<u8>, pos: usize, tree: &mut ASTTree) -> (r: Result<
        usize,
        ErrorCases,
    >)
        requires
            old(tree).wf(),
            pos <= s@.len(),
        ensures
            final(tree).wf(),
            match spec_paren(s@, pos as int) {
                Some((a, p)) => {
                    &&& r matches Ok(q) && q as int == p
                    &&& (pos as int) < p <= s@.len()
                    &&& grown_under(
                        old(tree)@,
                        final(tree)@,
                        old(tree).spec_cursor(),
                        old(tree)@.len() as int,
                    )
                    &&& abs_node(final(tree)@, old(tree)@.len() as int) == a
                },
                None => r matches Err(e) && e is ParserError,
            },
        decreases s@.len() - pos, 1int,
    {
        let n = s.len();
        if !(pos < n && s[pos] == 40) {
            return Err(ErrorCases::ParserError("expected an opening parenthesis".to_owned()));
        }
        let ghost pre = old(tree)@;
        let ghost parent = old(tree).spec_cursor();
        let idx = match tree.new_node(NodeType::ParenthesisWrapper(1)) {
            Ok(x) => x,
            Err(x) => {
                proof {
                    assert(false);
                }
                return Err(x);
            },
        };
        let ghost mid1 = tree@;
        match tree.change_index(idx) {
            Ok(()) => {},
            Err(x) => {
                proof {
                    assert(false);
                }
                return Err(x);
            },
        }
        let gp = match self.build_group(s, pos + 1, tree) {
            Ok(x) => x,
            Err(x) => {
                return Err(x);
            },
        };
        let ghost mid2 = tree@;
        if !(gp < n && s[gp] == 41) {
            return Err(ErrorCases::ParserError("unbalanced parentheses".to_owned()));
        }
        let after = gp + 1;
        let suffix: i32;
        let pend: usize;
        if after < n && is_digit_b(s[after]) {
            match scan_num(s, after) {
                Ok((v, e2)) => {
                    suffix = v;
                    pend = e2;
                },
                Err(x) => {
                    return Err(x);
                },
            }
        } else {
            suffix = 1;
            pend = after;
        }
        match tree.set_nodetype(idx, NodeType::ParenthesisWrapper(suffix)) {
            Ok(()) => {},
            Err(x) => {
                proof {
                    assert(false);
                }
                return Err(x);
            },
        }
        proof {
            let fin = tree@;
            tree.len_bound();
            assert(pre.len() <= usize::MAX);
            lemma_appended_grown(pre, mid1, parent);
            assert(extended_under(mid1, mid2, idx as int));
            // old nodes are untouched through all three steps
            assert forall|j: int| 0 <= j < pre.len() implies (#[trigger] fin[j]).ntype
                == pre[j].ntype && (j != parent ==> fin[j].children@ == pre[j].children@) by {
                assert(mid1[j].ntype == pre[j].ntype);
                assert(mid2[j].ntype == mid1[j].ntype);
                assert(fin[j] == mid2[j]);
                if j != parent {
                    assert(mid1[j].children@ == pre[j].children@);
                    assert(mid2[j].children@ == mid1[j].children@);
                }
            }
            assert(fin[parent].children@ == pre[parent].children@.push(pre.len() as usize));
            assert(extended_under(pre, fin, parent));
            assert(grown_under(pre, fin, parent, idx as int));
            // the wrapper's children keep their abstraction through the patch
            assert(fin[idx as int].children@ == mid2[idx as int].children@);
            assert(children_ok(mid2, idx as int));
            assert(forall|k: int|
                0 <= k < mid2[idx as int].children@.len() ==> (idx as int)
                    < #[trigger] mid2[idx as int].children@[k] < mid2.len());
            assert(nodes_frozen(mid2, fin, idx + 1));
            lemma_abs_list_frame(mid2, fin, idx as int, mid2[idx as int].children@);
            assert(mid1[idx as int].children@ =~= Seq::<usize>::empty());
            assert(abs_list(mid1, idx as int, mid1[idx as int].children@) =~= Seq::<
                Ast,
            >::empty());
            if let Some((gparts, _)) = spec_group(s@, pos + 1) {
                assert(abs_list(mid2, idx as int, mid2[idx as int].children@) =~= gparts);
                assert(abs_node(fin, idx as int) == Ast::Paren {
                    suffix: suffix as int,
                    parts: gparts,
                });
            }
        }
        Ok(pend)
    }

    /// `molecule`: reads the optional prefix, appends one molecule node,
    /// builds its items beneath it, and fills in the charge that a trailing
    /// annotation reveals.
    fn build_molecule(&self, s: &Vec<u8>, pos: usize, tree: &mut ASTTree) -> (r: Result<
        usize,
        ErrorCases,
    >)
        requires
            old(tree).wf(),
            pos <= s@.len(),
        ensures
            final(tree).wf(),
            match spec_molecule(s@, pos as int) {
                Some((a, p)) => {
                    &&& r matches Ok(q) && q as int == p
                    &&& (pos as int) < p <= s@.len()
                    &&& grown_under(
                        old(tree)@,
                        final(tree)@,
                        old(tree).spec_cursor(),
                        old(tree)@.len() as int,
                    )
                    &&& abs_node(final(tree)@, old(tree)@.len() as int) == a
                },
                None => r matches Err(e) && e is ParserError,
            },
        decreases s@.len() - pos, 3int,
    {
        let n = s.len();
        let prefix: i32;
        let p1: usize;
        if pos < n && is_digit_b(s[pos]) {
            match scan_num(s, pos) {
                Ok((v, e)) => {
                    prefix = v;
                    p1 = e;
                },
                Err(x) => {
                    return Err(x);
                },
            }
        } else {
            prefix = 1;
            p1 = pos;
        }
        let ghost pre = old(tree)@;
        let ghost parent = old(tree).spec_cursor();
        let idx = match tree.new_node(NodeType::Molecule(prefix, 0)) {
            Ok(x) => x,
            Err(x) => {
                proof {
                    assert(false);
                }
                return Err(x);
            },
        };
        let ghost mid1 = tree@;
        proof {
            tree.len_bound();
            assert(pre.len() <= usize::MAX);
            lemma_appended_grown(pre, mid1, parent);
        }
        if p1 < n && (is_upper_b(s[p1]) || s[p1] == 40) {
            let p2 = match self.build_items(s, p1, tree, idx) {
                Ok(x) => x,
                Err(x) => {
                    return Err(x);
                },
            };
            let ghost mid2 = tree@;
            let ghost gparts = abs_list(mid2, idx as int, mid2[idx as int].children@);
            proof {
                assert(extended_under(mid1, mid2, idx as int));
                assert(mid1[idx as int].children@ =~= Seq::<usize>::empty());
                assert(abs_list(mid1, idx as int, mid1[idx as int].children@) =~= Seq::<
                    Ast,
                >::empty());
                if let Some((parts, _)) = spec_items(s@, p1 as int) {
                    assert(gparts =~= parts);
                }
            }
            if p2 < n && s[p2] == 60 {
                match scan_electron(s, p2) {
                    Ok((charge, p3)) => {
                        match tree.set_nodetype(idx, NodeType::Molecule(prefix, charge)) {
                            Ok(()) => {},
                            Err(x) => {
                                proof {
                                    assert(false);
                                }
                                return Err(x);
                            },
                        }
                        proof {
                            let fin = tree@;
                            Self::molecule_compose(pre, mid1, mid2, fin, parent, idx as int);
                            assert(fin[idx as int].children@ == mid2[idx as int].children@);
                            assert(nodes_frozen(mid2, fin, idx + 1));
                            assert(children_ok(mid2, idx as int));
                            assert(forall|k: int|
                                0 <= k < mid2[idx as int].children@.len() ==> (idx as int)
                                    < #[trigger] mid2[idx as int].children@[k] < mid2.len());
                            lemma_abs_list_frame(
                                mid2,
                                fin,
                                idx as int,
                                mid2[idx as int].children@,
                            );
                            assert(abs_node(fin, idx as int) == Ast::Molecule {
                                prefix: prefix as int,
                                charge: charge as int,
                                parts: gparts,
                            });
                        }
                        Ok(p3)
                    },
                    Err(x) => {
                        return Err(x);
                    },
                }
            } else {
                proof {
                    let fin = tree@;
                    Self::molecule_compose(pre, mid1, mid2, fin, parent, idx as int);
                    assert(abs_node(fin, idx as int) == Ast::Molecule {
                        prefix: prefix as int,
                        charge: 0,
                        parts: gparts,
                    });
                }
                Ok(p2)
            }
        } else if p1 < n && s[p1] == 60 {
            match scan_electron(s, p1) {
                Ok((charge, p3)) => {
                    match tree.set_nodetype(idx, NodeType::Molecule(prefix, charge)) {
                        Ok(()) => {},
                        Err(x) => {
                            proof {
                                assert(false);
                            }
                            return Err(x);
                        },
                    }
                    proof {
                        let fin = tree@;
                        Self::molecule_compose(pre, mid1, mid1, fin, parent, idx as int);
                        assert(fin[idx as int].children@ =~= Seq::<usize>::empty());
                        assert(abs_list(fin, idx as int, fin[idx as int].children@) =~= Seq::<
                            Ast,
                        >::empty());
                        assert(abs_node(fin, idx as int) == Ast::Molecule {
                            prefix: prefix as int,
                            charge: charge as int,
                            parts: Seq::<Ast>::empty(),
                        });
                    }
                    Ok(p3)
                },
                Err(x) => {
                    return Err(x);
                },
            }
        } else {
            Err(ErrorCases::ParserError("empty molecule".to_owned()))
        }
    }

    /// Stitches the three construction steps of one molecule or wrapper node
    /// into a single grown subtree under the original cursor.
    proof fn molecule_compose(
        pre: Seq<Node>,
        mid1: Seq<Node>,
        mid2: Seq<Node>,
        fin: Seq<Node>,
        parent: int,
        idx: int,
    )
        requires
            forall|j: int| 0 <= j < pre.len() ==> children_ok(pre, j),
            appended_node(pre, mid1, parent),
            pre.len() <= usize::MAX,
            idx == pre.len(),
            extended_under(mid1, mid2, idx),
            fin.len() == mid2.len(),
            forall|j: int| 0 <= j < mid2.len() && j != idx ==> (#[trigger] fin[j]) == mid2[j],
            fin[idx].children@ == mid2[idx].children@,
        ensures
            grown_under(pre, fin, parent, idx),
    {
        lemma_appended_grown(pre, mid1, parent);
        assert forall|j: int| 0 <= j < pre.len() implies (#[trigger] fin[j]).ntype == pre[j].ntype
            && (j != parent ==> fin[j].children@ == pre[j].children@) by {
            assert(mid1[j].ntype == pre[j].ntype);
            assert(mid2[j].ntype == mid1[j].ntype);
            assert(fin[j] == mid2[j]);
            if j != parent {
                assert(mid1[j].children@ == pre[j].children@);
                assert(mid2[j].children@ == mid1[j].children@);
            }
        }
        assert(fin[parent].children@ == pre[parent].children@.push(pre.len() as usize));
        assert(extended_under(pre, fin, parent));
    }

    /// `molecule_group`: builds each dot-separated molecule as a child of
    /// the node at the cursor, restoring the cursor between molecules.
    fn build_group(&self, s: &Vec<u8>, pos: usize, tree: &mut ASTTree) -> (r: Result<
        usize,
        ErrorCases,
    >)
        requires
            old(tree).wf(),
            pos <= s@.len(),
        ensures
            final(tree).wf(),
            match spec_group(s@, pos as int) {
                Some((parts, p)) => {
                    &&& r matches Ok(q) && q as int == p
                    &&& (pos as int) < p <= s@.len()
                    &&& extended_under(old(tree)@, final(tree)@, old(tree).spec_cursor())
                    &&& abs_list(
                        final(tree)@,
                        old(tree).spec_cursor(),
                        final(tree)@[old(tree).spec_cursor()].children@,
                    ) == abs_list(
                        old(tree)@,
                        old(tree).spec_cursor(),
                        old(tree)@[old(tree).spec_cursor()].children@,
                    ) + parts
                },
                None => r matches Err(e) && e is ParserError,
            },
        decreases s@.len() - pos, 4int,
    {
        let parent = tree.get_index();
        let ghost pre = old(tree)@;
        let p = match self.build_molecule(s, pos, tree) {
            Ok(x) => x,
            Err(x) => {
                return Err(x);
            },
        };
        let ghost mid = tree@;
        let ghost root1 = pre.len() as int;
        let ghost m1 = abs_node(mid, root1);
        proof {
            tree.len_bound();
            assert(pre.len() <= usize::MAX);
            assert(grown_under(pre, mid, parent as int, root1));
            assert(children_ok(pre, parent as int));
            assert(forall|k: int|
                0 <= k < pre[parent as int].children@.len() ==> (parent as int)
                    < #[trigger] pre[parent as int].children@[k] < pre.len());
            lemma_abs_list_push(
                mid,
                parent as int,
                pre[parent as int].children@,
                pre.len() as usize,
            );
            assert(nodes_frozen(pre, mid, parent + 1));
            lemma_abs_list_frame(pre, mid, parent as int, pre[parent as int].children@);
            assert(abs_list(mid, parent as int, mid[parent as int].children@) == abs_list(
                pre,
                parent as int,
                pre[parent as int].children@,
            ) + seq![m1]);
        }
        let n = s.len();
        if p < n && s[p] == 46 {
            match tree.change_index(parent) {
                Ok(()) => {},
                Err(x) => {
                    proof {
                        assert(false);
                    }
                    return Err(x);
                },
            }
            let e = match self.build_group(s, p + 1, tree) {
                Ok(x) => x,
                Err(x) => {
                    return Err(x);
                },
            };
            proof {
                let fin = tree@;
                lemma_extended_trans(pre, mid, fin, parent as int);
                if let Some((rest, _)) = spec_group(s@, p + 1) {
                    assert(abs_list(fin, parent as int, fin[parent as int].children@) == abs_list(
                        mid,
                        parent as int,
                        mid[parent as int].children@,
                    ) + rest);
                    assert((abs_list(pre, parent as int, pre[parent as int].children@) + seq![m1])
                        + rest =~= abs_list(pre, parent as int, pre[parent as int].children@) + (
                    seq![m1] + rest));
                }
            }
            Ok(e)
        } else {
            Ok(p)
        }
    }

    /// Parses a formula into its tree: succeeds exactly on text the grammar
    /// accepts whole (with every numeral in the coefficient range), and the
    /// returned tree's abstraction is exactly what [`spec_parse`] gives; a
    /// failure reports a parse error and surrenders no tree.
    pub fn parse(&self, formula: &str) -> (r: Result<ASTTree, ErrorCases>)
        ensures
            match spec_parse(formula.spec_bytes()) {
                Some(ast) => r matches Ok(t) && t.wf() && abs_node(t@, 0) == ast,
                None => r matches Err(e) && e is ParserError,
            },
    {
        let s = formula.as_bytes_vec();
        let mut tree = ASTTree::new();
        let ghost pre = tree@;
        match self.build_group(&s, 0, &mut tree) {
            Ok(p) => {
                if p == s.len() {
                    proof {
                        let fin = tree@;
                        assert(abs_list(pre, 0, pre[0].children@) =~= Seq::<Ast>::empty());
                        if let Some((parts, _)) = spec_group(s@, 0) {
                            assert(abs_list(fin, 0, fin[0].children@) =~= parts);
                            assert(fin[0].ntype is Group);
                            assert(abs_node(fin, 0) == Ast::Group { parts });
                        }
                    }
                    Ok(tree)
                } else {
                    Err(ErrorCases::ParserError("unexpected trailing input".to_owned()))
                }
            },
            Err(e) => Err(e),
        }
    }

    /// Appends a node under the cursor; a stale cursor is reported, exactly
    /// as [`ASTTree::new_node`] promises.
    pub fn new_node_alias(&self, tree: &mut ASTTree, ntype: NodeType) -> (r: Result<
        usize,
        ErrorCases,
    >)
        requires
            old(tree).wf(),
        ensures
            final(tree).wf(),
            r matches Ok(idx) && idx as int == old(tree)@.len(),
            appended_node(old(tree)@, final(tree)@, old(tree).spec_cursor()),
            final(tree)@[old(tree)@.len() as int].ntype == ntype,
            final(tree).spec_cursor() == old(tree).spec_cursor(),
    {
        tree.new_node(ntype)
    }
}

} // verus!
