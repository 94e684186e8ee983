//! Accumulation of parsed formulas into an element-by-formula matrix.

use crate::atomdict::{bytes_clone, bytes_eq};
use crate::failures::ErrorCases;
use crate::grammar::{fits_i32, spec_tokens};
use crate::treebuilder::ASTTreeBuilder;
use vstd::prelude::*;
use vstd::string::StringSliceAdditionalSpecFns;

verus! {

/// One formula as an equation-layout collaborator hands it around: its own
/// text, its coefficient, and the full text it came from.
pub struct FormulaDesc {
    pub formula_self: String,
    pub times: i32,
    pub all: String,
}

/// One element's contribution within a formula: the symbol and its net
/// count.
pub struct TokenDesc {
    pub token_name: Vec<u8>,
    pub times: i32,
}

/// The element-count pairs of one formula, in discovery order: the parse
/// and reduction pipeline's result, flattened for table storage.
pub fn get_token(formula: &str) -> (r: Result<Vec<TokenDesc>, ErrorCases>)
    ensures
        match spec_tokens(formula.spec_bytes()) {
            Some(toks) => r matches Ok(v) && v@.len() == toks.len() && forall|k: int|
                0 <= k < toks.len() ==> (#[trigger] v@[k]).token_name@ == toks[k].0
                    && v@[k].times as int == toks[k].1,
            None => r matches Err(e) && e is ParserError,
        },
{
    let builder = ASTTreeBuilder::new();
    let tree = match builder.parse(formula) {
        Ok(t) => t,
        Err(e) => {
            return Err(e);
        },
    };
    let ad = match tree.to_atomdict() {
        Ok(d) => d,
        Err(e) => {
            return Err(e);
        },
    };
    let pairs = ad.get_dict();
    let n = pairs.len();
    let mut out: Vec<TokenDesc> = Vec::new();
    let mut i: usize = 0;
    while i < n
        invariant
            0 <= i <= n,
            n == pairs@.len(),
            n == ad@.len(),
            forall|k: int|
                0 <= k < ad@.len() ==> (#[trigger] pairs@[k]).0@ == ad@[k].0 && pairs@[k].1 as int
                    == ad@[k].1,
            out@.len() == i,
            forall|k: int|
                0 <= k < i ==> (#[trigger] out@[k]).token_name@ == ad@[k].0 && out@[k].times as int
                    == ad@[k].1,
        decreases n - i,
    {
        let name = bytes_clone(&pairs[i].0);
        out.push(TokenDesc { token_name: name, times: pairs[i].1 });
        i += 1;
    }
    Ok(out)
}

/// True where `name` stands among the discovered symbols.
pub open spec fn has_elem(elems: Seq<Seq<u8>>, name: Seq<u8>) -> bool {
    exists|i: int| 0 <= i < elems.len() && elems[i] == name
}

/// The first index holding `name`.
pub open spec fn elem_index(elems: Seq<Seq<u8>>, name: Seq<u8>) -> int
    decreases elems.len(),
{
    if elems.len() == 0 {
        0
    } else if elems[0] == name {
        0
    } else {
        1 + elem_index(elems.drop_first(), name)
    }
}

pub proof fn lemma_elem_index_at(elems: Seq<Seq<u8>>, name: Seq<u8>, i: int)
    requires
        0 <= i < elems.len(),
        elems[i] == name,
        forall|j: int| 0 <= j < i ==> elems[j] != name,
    ensures
        elem_index(elems, name) == i,
    decreases i,
{
    if i > 0 {
        let et = elems.drop_first();
        assert(forall|j: int| 0 <= j < i - 1 ==> et[j] != name);
        assert(et[i - 1] == name);
        lemma_elem_index_at(et, name, i - 1);
    }
}

/// A zero-filled row of the table's width.
pub open spec fn zero_row(sum: int) -> Seq<int> {
    Seq::new(sum as nat, |j: int| 0)
}

/// One token stored: the symbol is registered if unseen (a fresh zero row
/// appended), the count (negated where asked) added into its row at `loc`;
/// `None` where a count leaves the coefficient range.
pub open spec fn store_one(
    elems: Seq<Seq<u8>>,
    rows: Seq<Seq<int>>,
    sum: int,
    name: Seq<u8>,
    v: int,
    loc: int,
    neg: bool,
) -> Option<(Seq<Seq<u8>>, Seq<Seq<int>>)> {
    let v1: int = if neg {
        -v
    } else {
        v
    };
    if !fits_i32(v1) {
        None
    } else {
        let elems1: Seq<Seq<u8>> = if has_elem(elems, name) {
            elems
        } else {
            elems.push(name)
        };
        let rows1: Seq<Seq<int>> = if has_elem(elems, name) {
            rows
        } else {
            rows.push(zero_row(sum))
        };
        let i: int = elem_index(elems1, name);
        let cell: int = rows1[i][loc];
        if fits_i32(cell + v1) {
            Some((elems1, rows1.update(i, rows1[i].update(loc, cell + v1))))
        } else {
            None
        }
    }
}

/// All of a formula's tokens stored in order.
pub open spec fn store_toks(
    elems: Seq<Seq<u8>>,
    rows: Seq<Seq<int>>,
    sum: int,
    toks: Seq<(Seq<u8>, int)>,
    loc: int,
    neg: bool,
) -> Option<(Seq<Seq<u8>>, Seq<Seq<int>>)>
    decreases toks.len(),
{
    if toks.len() == 0 {
        Some((elems, rows))
    } else {
        match store_one(elems, rows, sum, toks[0].0, toks[0].1, loc, neg) {
            Some((e2, r2)) => store_toks(e2, r2, sum, toks.drop_first(), loc, neg),
            None => None,
        }
    }
}

/// The growing element-by-formula table: a symbol-to-row-index map in
/// discovery order, the rows themselves, and the fixed column count.
pub struct TableDesc {
    elements_table: Vec<(Vec<u8>, usize)>,
    list: Vec<Vec<i32>>,
    formula_sum: usize,
}

impl TableDesc {
    /// The discovered element symbols, in discovery order.
    pub closed spec fn spec_elems(self) -> Seq<Seq<u8>> {
        Seq::new(self.elements_table@.len(), |i: int| self.elements_table@[i].0@)
    }

    /// The accumulated rows, one per discovered element.
    pub closed spec fn spec_rows(self) -> Seq<Seq<int>> {
        Seq::new(
            self.list@.len(),
            |i: int| Seq::new(self.list@[i]@.len(), |j: int| self.list@[i]@[j] as int),
        )
    }

    /// The fixed column count.
    pub closed spec fn spec_sum(self) -> int {
        self.formula_sum as int
    }

    /// Each symbol maps to its own position.
    pub closed spec fn index_ok(self) -> bool {
        forall|i: int|
            0 <= i < self.elements_table@.len() ==> (#[trigger] self.elements_table@[i]).1 as int
                == i
    }

    /// The table's invariant: as many symbols as mapped rows at most, every
    /// row of the fixed width, distinct symbols, positions in order.
    pub open spec fn wf(self) -> bool {
        &&& self.spec_elems().len() <= self.spec_rows().len()
        &&& forall|i: int|
            0 <= i < self.spec_rows().len() ==> (#[trigger] self.spec_rows()[i]).len()
                == self.spec_sum()
        &&& forall|i: int, j: int|
            0 <= i < j < self.spec_elems().len() ==> self.spec_elems()[i] != self.spec_elems()[j]
        &&& self.index_ok()
    }

    /// An empty table for `sum` formula slots; rows are added as elements
    /// are discovered.
    pub fn new(sum: usize) -> (r: Self)
        ensures
            r.wf(),
            r.spec_elems() == Seq::<Seq<u8>>::empty(),
            r.spec_rows() == Seq::<Seq<int>>::empty(),
            r.spec_sum() == sum as int,
    {
        let r = TableDesc { elements_table: Vec::new(), list: Vec::new(), formula_sum: sum };
        proof {
            assert(r.spec_elems() =~= Seq::<Seq<u8>>::empty());
            assert(r.spec_rows() =~= Seq::<Seq<int>>::empty());
        }
        r
    }

    /// A fresh zero-filled row of the table's width.
    fn generate_vec(&self) -> (r: Vec<i32>)
        ensures
            r@.len() == self.spec_sum(),
            forall|j: int| 0 <= j < r@.len() ==> r@[j] == 0i32,
    {
        let n = self.formula_sum;
        let mut r: Vec<i32> = Vec::new();
        let mut j: usize = 0;
        while j < n
            invariant
                0 <= j <= n,
                r@.len() == j,
                forall|k: int| 0 <= k < j ==> r@[k] == 0i32,
            decreases n - j,
        {
            r.push(0);
            j += 1;
        }
        r
    }

    /// Appends one zero-filled row, leaving the symbols alone.
    pub fn update_list_vec(&mut self)
        requires
            old(self).wf(),
        ensures
            final(self).wf(),
            final(self).spec_elems() == old(self).spec_elems(),
            final(self).spec_sum() == old(self).spec_sum(),
            final(self).spec_rows() == old(self).spec_rows().push(zero_row(old(self).spec_sum())),
    {
        let v = self.generate_vec();
        self.list.push(v);
        proof {
            assert(final(self).spec_elems() =~= old(self).spec_elems());
            assert(final(self).spec_rows() =~~= old(self).spec_rows().push(
                zero_row(old(self).spec_sum()),
            ));
        }
    }

    /// The position of `name` among the discovered symbols, where it has
    /// one.
    fn find_index(&self, name: &Vec<u8>) -> (r: Option<usize>)
        ensures
            match r {
                Some(i) => (i as int) < self.spec_elems().len() && self.spec_elems()[i as int]
                    == name@ && elem_index(self.spec_elems(), name@) == i as int && has_elem(
                    self.spec_elems(),
                    name@,
                ),
                None => !has_elem(self.spec_elems(), name@),
            },
    {
        let m = self.elements_table.len();
        let mut q: usize = 0;
        while q < m
            invariant
                0 <= q <= m,
                m == self.elements_table@.len(),
                forall|j: int| 0 <= j < q ==> self.spec_elems()[j] != name@,
            decreases m - q,
        {
            if bytes_eq(&self.elements_table[q].0, name) {
                proof {
                    assert(self.spec_elems()[q as int] == name@);
                    lemma_elem_index_at(self.spec_elems(), name@, q as int);
                }
                return Some(q);
            }
            proof {
                assert(self.spec_elems()[q as int] == self.elements_table@[q as int].0@);
            }
            q += 1;
        }
        proof {
            assert(forall|j: int|
                0 <= j < self.spec_elems().len() ==> self.spec_elems()[j] != name@);
        }
        None
    }

    /// Parses `formula`, registers every discovered element (appending a
    /// fresh zero row for an unseen one), and adds each count — negated
    /// where `neg` asks — into that element's row at column `location`:
    /// exactly the fold [`store_toks`] over the formula's tokens. A
    /// malformed formula is reported with nothing changed; a count outside
    /// the coefficient range is reported once reached, keeping what was
    /// stored before it. In every outcome the discovered elements only grow.
    pub fn store_in_table(&mut self, formula: &str, location: usize, neg: bool) -> (r: Result<
        bool,
        ErrorCases,
    >)
        requires
            old(self).wf(),
            (location as int) < old(self).spec_sum(),
        ensures
            final(self).wf(),
            final(self).spec_sum() == old(self).spec_sum(),
            old(self).spec_elems().is_prefix_of(final(self).spec_elems()),
            final(self).spec_rows().len() >= old(self).spec_rows().len(),
            final(self).spec_rows().len() - final(self).spec_elems().len() == old(
                self,
            ).spec_rows().len() - old(self).spec_elems().len(),
            match spec_tokens(formula.spec_bytes()) {
                Some(toks) => match store_toks(
                    old(self).spec_elems(),
                    old(self).spec_rows(),
                    old(self).spec_sum(),
                    toks,
                    location as int,
                    neg,
                ) {
                    Some(er) => r matches Ok(b) && b && final(self).spec_elems() == er.0
                        && final(self).spec_rows() == er.1,
                    None => r matches Err(e) && e is ParserError,
                },
                None => (r matches Err(e) && e is ParserError) && final(self).spec_elems()
                    == old(self).spec_elems() && final(self).spec_rows() == old(
                    self,
                ).spec_rows(),
            },
    {
        let toks = match get_token(formula) {
            Ok(t) => t,
            Err(e) => {
                return Err(e);
            },
        };
        let ghost gtoks = match spec_tokens(formula.spec_bytes()) {
            Some(t) => t,
            None => Seq::empty(),
        };
        proof {
            assert(gtoks.skip(0) =~= gtoks);
        }
        let n = toks.len();
        let mut i: usize = 0;
        while i < n
            invariant
                self.wf(),
                self.spec_sum() == old(self).spec_sum(),
                old(self).spec_elems().is_prefix_of(self.spec_elems()),
                self.spec_rows().len() >= old(self).spec_rows().len(),
                self.spec_rows().len() - self.spec_elems().len() == old(self).spec_rows().len()
                    - old(self).spec_elems().len(),
                (location as int) < self.spec_sum(),
                0 <= i <= n,
                n == toks@.len(),
                n == gtoks.len(),
                spec_tokens(formula.spec_bytes()) == Some(gtoks),
                forall|k: int|
                    0 <= k < n ==> (#[trigger] toks@[k]).token_name@ == gtoks[k].0
                        && toks@[k].times as int == gtoks[k].1,
                store_toks(
                    old(self).spec_elems(),
                    old(self).spec_rows(),
                    old(self).spec_sum(),
                    gtoks,
                    location as int,
                    neg,
                ) == store_toks(
                    self.spec_elems(),
                    self.spec_rows(),
                    self.spec_sum(),
                    gtoks.skip(i as int),
                    location as int,
                    neg,
                ),
            decreases n - i,
        {
            let ghost elems0 = self.spec_elems();
            let ghost rows0 = self.spec_rows();
            let ghost gname = gtoks[i as int].0;
            let ghost gv = gtoks[i as int].1;
            proof {
                assert(gtoks.skip(i as int)[0] == gtoks[i as int]);
                assert(gtoks.skip(i as int).drop_first() =~= gtoks.skip(i + 1));
                assert(store_toks(
                    old(self).spec_elems(),
                    old(self).spec_rows(),
                    old(self).spec_sum(),
                    gtoks,
                    location as int,
                    neg,
                ) == store_toks(
                    elems0,
                    rows0,
                    old(self).spec_sum(),
                    gtoks.skip(i as int),
                    location as int,
                    neg,
                ));
            }
            let idx: usize;
            match self.find_index(&toks[i].token_name) {
                Some(x) => {
                    idx = x;
                },
                None => {
                    idx = self.elements_table.len();
                    self.update_list_vec();
                    let key = bytes_clone(&toks[i].token_name);
                    self.elements_table.push((key, idx));
                    proof {
                        assert(self.spec_elems() =~= elems0.push(gname));
                        assert(self.spec_rows() =~~= rows0.push(
                            zero_row(old(self).spec_sum()),
                        ));
                        assert(forall|j: int| 0 <= j < idx as int ==> elems0[j] != gname);
                        assert(self.spec_elems()[idx as int] == gname);
                        lemma_elem_index_at(self.spec_elems(), gname, idx as int);
                        assert forall|a: int, b: int|
                            0 <= a < b < self.spec_elems().len() implies self.spec_elems()[a]
                            != self.spec_elems()[b] by {
                            if b < idx as int {
                                assert(elems0[a] != elems0[b]);
                            } else {
                                assert(self.spec_elems()[b] == gname);
                                assert(self.spec_elems()[a] == elems0[a]);
                            }
                        }
                        assert(self.wf());
                        assert(elems0.is_prefix_of(self.spec_elems()));
                    }
                },
            }
            proof {
                assert(self.spec_elems()[idx as int] == gname);
                assert(elem_index(self.spec_elems(), gname) == idx as int);
                assert((idx as int) < self.spec_rows().len());
                assert(self.spec_rows()[idx as int].len() == self.spec_sum());
            }
            let mut v = toks[i].times;
            if neg {
                if v == i32::MIN {
                    proof {
                        assert(store_one(
                            elems0,
                            rows0,
                            old(self).spec_sum(),
                            gname,
                            gv,
                            location as int,
                            neg,
                        ) is None);
                        assert(store_toks(
                            elems0,
                            rows0,
                            old(self).spec_sum(),
                            gtoks.skip(i as int),
                            location as int,
                            neg,
                        ) is None);
                        assert(elems0 =~= self.spec_elems().subrange(
                            0,
                            elems0.len() as int,
                        ));
                        assert(old(self).spec_elems() =~= self.spec_elems().subrange(
                            0,
                            old(self).spec_elems().len() as int,
                        ));
                        assert(old(self).spec_elems().is_prefix_of(self.spec_elems()));
                        assert(self.spec_rows().len() >= old(self).spec_rows().len());
                    }
                    return Err(ErrorCases::ParserError("stored count out of range".to_owned()));
                }
                v = -v;
            }
            let ghost elems1 = self.spec_elems();
            let ghost rows1 = self.spec_rows();
            let cur = self.list[idx][location];
            match cur.checked_add(v) {
                Some(s2) => {
                    self.list[idx][location] = s2;
                    proof {
                        assert(self.spec_rows() =~~= rows1.update(
                            idx as int,
                            rows1[idx as int].update(location as int, rows1[idx as int][location as int] + (if neg { -gv } else { gv })),
                        ));
                        assert(self.spec_elems() =~= elems1);
                        assert(store_one(
                            elems0,
                            rows0,
                            old(self).spec_sum(),
                            gname,
                            gv,
                            location as int,
                            neg,
                        ) == Some((self.spec_elems(), self.spec_rows())));
                        assert(store_toks(
                            elems0,
                            rows0,
                            old(self).spec_sum(),
                            gtoks.skip(i as int),
                            location as int,
                            neg,
                        ) == store_toks(
                            self.spec_elems(),
                            self.spec_rows(),
                            old(self).spec_sum(),
                            gtoks.skip(i + 1),
                            location as int,
                            neg,
                        ));
                        assert forall|a: int|
                            0 <= a < self.spec_rows().len() implies (
                        #[trigger] self.spec_rows()[a]).len() == self.spec_sum() by {
                            assert(rows1[a].len() == self.spec_sum());
                        }
                        assert(self.wf());
                    }
                },
                None => {
                    proof {
                        assert(store_one(
                            elems0,
                            rows0,
                            old(self).spec_sum(),
                            gname,
                            gv,
                            location as int,
                            neg,
                        ) is None);
                        assert(store_toks(
                            elems0,
                            rows0,
                            old(self).spec_sum(),
                            gtoks.skip(i as int),
                            location as int,
                            neg,
                        ) is None);
                        assert(elems0 =~= self.spec_elems().subrange(
                            0,
                            elems0.len() as int,
                        ));
                        assert(old(self).spec_elems() =~= self.spec_elems().subrange(
                            0,
                            old(self).spec_elems().len() as int,
                        ));
                        assert(old(self).spec_elems().is_prefix_of(self.spec_elems()));
                        assert(self.spec_rows().len() >= old(self).spec_rows().len());
                    }
                    return Err(ErrorCases::ParserError("stored count out of range".to_owned()));
                },
            }
            i += 1;
        }
        proof {
            assert(gtoks.skip(n as int) =~= Seq::<(Seq<u8>, int)>::empty());
        }
        Ok(true)
    }

    /// Reading is idempotent: any two matrices that satisfy [`Self::get_list`]'s
    /// contract for one table state are equal, so two reads with no write
    /// between them return identical matrices.
    pub proof fn lemma_get_list_deterministic(self, a: Vec<Vec<i32>>, b: Vec<Vec<i32>>)
        requires
            a@.len() == self.spec_rows().len(),
            forall|i: int| 0 <= i < a@.len() ==> (#[trigger] a@[i])@.len() == self.spec_rows()[i].len(),
            forall|i: int, j: int|
                0 <= i < a@.len() && 0 <= j < a@[i]@.len() ==> (#[trigger] a@[i]@[j]) as int
                    == self.spec_rows()[i][j],
            b@.len() == self.spec_rows().len(),
            forall|i: int| 0 <= i < b@.len() ==> (#[trigger] b@[i])@.len() == self.spec_rows()[i].len(),
            forall|i: int, j: int|
                0 <= i < b@.len() && 0 <= j < b@[i]@.len() ==> (#[trigger] b@[i]@[j]) as int
                    == self.spec_rows()[i][j],
        ensures
            a@.len() == b@.len(),
            forall|i: int| 0 <= i < a@.len() ==> (#[trigger] a@[i])@ == b@[i]@,
    {
        assert forall|i: int| 0 <= i < a@.len() implies (#[trigger] a@[i])@ == b@[i]@ by {
            assert(a@[i]@.len() == b@[i]@.len());
            assert forall|j: int| 0 <= j < a@[i]@.len() implies a@[i]@[j] == b@[i]@[j] by {
                assert(a@[i]@[j] as int == self.spec_rows()[i][j]);
                assert(b@[i]@[j] as int == self.spec_rows()[i][j]);
            }
            assert(a@[i]@ =~= b@[i]@);
        }
    }

    /// A full copy of the accumulated matrix: rows are elements in discovery
    /// order, columns the formula slots. Reading mutates nothing, so two
    /// reads with no write between them return the same matrix.
    pub fn get_list(&self) -> (r: Vec<Vec<i32>>)
        ensures
            r@.len() == self.spec_rows().len(),
            forall|i: int|
                0 <= i < r@.len() ==> (#[trigger] r@[i])@.len() == self.spec_rows()[i].len(),
            forall|i: int, j: int|
                0 <= i < r@.len() && 0 <= j < r@[i]@.len() ==> (#[trigger] r@[i]@[j]) as int
                    == self.spec_rows()[i][j],
    {
        let n = self.list.len();
        let mut r: Vec<Vec<i32>> = Vec::new();
        let mut i: usize = 0;
        while i < n
            invariant
                0 <= i <= n,
                n == self.list@.len(),
                r@.len() == i,
                forall|a: int|
                    0 <= a < i ==> (#[trigger] r@[a])@.len() == self.spec_rows()[a].len(),
                forall|a: int, b: int|
                    0 <= a < i && 0 <= b < r@[a]@.len() ==> (#[trigger] r@[a]@[b]) as int
                        == self.spec_rows()[a][b],
            decreases n - i,
        {
            let row = &self.list[i];
            let m = row.len();
            let mut cr: Vec<i32> = Vec::new();
            let mut j: usize = 0;
            while j < m
                invariant
                    0 <= j <= m,
                    m == row@.len(),
                    row@ == self.list@[i as int]@,
                    i < self.list@.len(),
                    cr@.len() == j,
                    forall|b: int| 0 <= b < j ==> cr@[b] == row@[b],
                decreases m - j,
            {
                cr.push(row[j]);
                j += 1;
            }
            r.push(cr);
            i += 1;
        }
        r
    }
}

} // verus!
