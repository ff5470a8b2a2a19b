use vstd::prelude::*;

use crate::errors::SpecificationError;
use crate::text::int_token;
use crate::text::is_digit;
use crate::text::is_i64_literal;
use crate::text::is_ws;
use crate::text::lines_of;
use crate::text::literal_value;
use crate::text::newline_count;
use crate::text::token_count;
use crate::text::parse_i64;
use crate::text::push_int_token;
use crate::text::split_lines;
use crate::text::split_tokens;
use crate::text::tokens_of;

verus! {

// ---------------------------------------------------------------------------
// The data model
// ---------------------------------------------------------------------------

/// A quantity in a declaration: either a literal integer or a reference to a
/// variable bound by an earlier integer declaration.
pub enum Numeric {
    Integer(i64),
    Variable(Vec<u8>),
}

/// The mathematical shape of a `Numeric`.
pub enum NumericModel {
    Literal(int),
    Variable(Seq<u8>),
}

impl View for Numeric {
    type V = NumericModel;

    open spec fn view(&self) -> NumericModel {
        match self {
            Numeric::Integer(x) => NumericModel::Literal(*x as int),
            Numeric::Variable(name) => NumericModel::Variable(name@),
        }
    }
}

/// One instruction of a specification: bind and emit a sampled integer, emit
/// a sampled array, emit a random permutation, or emit a record separator.
pub enum SpecificationAtom {
    Integer { name: Vec<u8>, lower: Numeric, higher: Numeric },
    Array { name: Vec<u8>, length: Numeric, lower: Numeric, higher: Numeric },
    Permutation { name: Vec<u8>, length: Numeric },
    NewLine,
}

/// The mathematical shape of a `SpecificationAtom`.
pub enum AtomModel {
    Integer { name: Seq<u8>, lower: NumericModel, higher: NumericModel },
    Array { name: Seq<u8>, length: NumericModel, lower: NumericModel, higher: NumericModel },
    Permutation { name: Seq<u8>, length: NumericModel },
    NewLine,
}

impl View for SpecificationAtom {
    type V = AtomModel;

    open spec fn view(&self) -> AtomModel {
        match self {
            SpecificationAtom::Integer { name, lower, higher } => AtomModel::Integer {
                name: name@,
                lower: lower@,
                higher: higher@,
            },
            SpecificationAtom::Array { name, length, lower, higher } => AtomModel::Array {
                name: name@,
                length: length@,
                lower: lower@,
                higher: higher@,
            },
            SpecificationAtom::Permutation { name, length } => AtomModel::Permutation {
                name: name@,
                length: length@,
            },
            SpecificationAtom::NewLine => AtomModel::NewLine,
        }
    }
}

/// A parsed specification: the ordered atoms that one `generate` call walks.
pub struct Specification {
    atoms: Vec<SpecificationAtom>,
}

impl View for Specification {
    type V = Seq<AtomModel>;

    closed spec fn view(&self) -> Seq<AtomModel> {
        self.atoms@.map_values(|a: SpecificationAtom| a@)
    }
}

// ---------------------------------------------------------------------------
// The binding store
// ---------------------------------------------------------------------------

/// The scratch mapping from declared names to sampled values, live for one
/// `generate` call. A later binding of the same name shadows the earlier one.
pub struct Store {
    entries: Vec<(Vec<u8>, i64)>,
}

/// The mapping that a list of bindings denotes, later entries overriding.
pub open spec fn store_map(entries: Seq<(Seq<u8>, i64)>) -> Map<Seq<u8>, i64>
    decreases entries.len(),
{
    if entries.len() == 0 {
        Map::empty()
    } else {
        store_map(entries.drop_last()).insert(entries.last().0, entries.last().1)
    }
}

impl View for Store {
    type V = Map<Seq<u8>, i64>;

    closed spec fn view(&self) -> Map<Seq<u8>, i64> {
        store_map(self.entries@.map_values(|e: (Vec<u8>, i64)| (e.0@, e.1)))
    }
}

impl Store {
    /// A store with no bindings.
    pub fn new() -> (r: Store)
        ensures
            r@ == Map::<Seq<u8>, i64>::empty(),
    {
        let r = Store { entries: Vec::new() };
        assert(r.entries@.map_values(|e: (Vec<u8>, i64)| (e.0@, e.1)) =~= Seq::<(
            Seq<u8>,
            i64,
        )>::empty());
        r
    }

    /// Binds `name` to `value`, shadowing any earlier binding.
    pub fn insert(&mut self, name: Vec<u8>, value: i64)
        ensures
            final(self)@ == old(self)@.insert(name@, value),
    {
        let ghost pre = self.entries@.map_values(|e: (Vec<u8>, i64)| (e.0@, e.1));
        self.entries.push((name, value));
        proof {
            let post = self.entries@.map_values(|e: (Vec<u8>, i64)| (e.0@, e.1));
            assert(post =~= pre.push((name@, value)));
            assert(post.drop_last() =~= pre);
        }
    }

    /// Looks `name` up: the value of its latest binding, if any.
    pub fn get(&self, name: &Vec<u8>) -> (r: Option<i64>)
        ensures
            match r {
                Some(v) => self@.contains_key(name@) && self@[name@] == v,
                None => !self@.contains_key(name@),
            },
    {
        let ghost all = self.entries@.map_values(|e: (Vec<u8>, i64)| (e.0@, e.1));
        let mut j: usize = self.entries.len();
        while j > 0
            invariant
                j <= self.entries@.len(),
                all == self.entries@.map_values(|e: (Vec<u8>, i64)| (e.0@, e.1)),
                forall|m: int| j <= m < all.len() ==> (#[trigger] all[m]).0 != name@,
            decreases j,
        {
            j = j - 1;
            if bytes_eq(&self.entries[j].0, name) {
                proof {
                    lemma_store_map_found(all, j as int, name@);
                }
                return Some(self.entries[j].1);
            }
        }
        proof {
            lemma_store_map_missing(all, name@);
        }
        None
    }
}

/// If entry `j` binds `name` and no later entry does, the store maps `name`
/// to entry `j`'s value.
proof fn lemma_store_map_found(entries: Seq<(Seq<u8>, i64)>, j: int, name: Seq<u8>)
    requires
        0 <= j < entries.len(),
        entries[j].0 == name,
        forall|m: int| j < m < entries.len() ==> (#[trigger] entries[m]).0 != name,
    ensures
        store_map(entries).contains_key(name),
        store_map(entries)[name] == entries[j].1,
    decreases entries.len(),
{
    if j == entries.len() - 1 {
    } else {
        lemma_store_map_found(entries.drop_last(), j, name);
    }
}

/// A name that no entry binds is not in the store.
proof fn lemma_store_map_missing(entries: Seq<(Seq<u8>, i64)>, name: Seq<u8>)
    requires
        forall|m: int| 0 <= m < entries.len() ==> (#[trigger] entries[m]).0 != name,
    ensures
        !store_map(entries).contains_key(name),
    decreases entries.len(),
{
    if entries.len() > 0 {
        lemma_store_map_missing(entries.drop_last(), name);
    }
}

/// Whether two byte strings are equal.
pub fn bytes_eq(a: &Vec<u8>, b: &Vec<u8>) -> (r: bool)
    ensures
        r == (a@ == b@),
{
    if a.len() != b.len() {
        return false;
    }
    let mut i: usize = 0;
    while i < a.len()
        invariant
            i <= a.len(),
            a@.len() == b@.len(),
            forall|k: int| 0 <= k < i ==> a@[k] == b@[k],
        decreases a.len() - i,
    {
        if a[i] != b[i] {
            return false;
        }
        i = i + 1;
    }
    proof {
        assert(a@ =~= b@);
    }
    true
}

/// Copies a byte string.
pub fn copy_bytes(src: &Vec<u8>) -> (r: Vec<u8>)
    ensures
        r@ == src@,
{
    let mut r: Vec<u8> = Vec::new();
    let mut i: usize = 0;
    while i < src.len()
        invariant
            i <= src.len(),
            r@ == src@.take(i as int),
        decreases src.len() - i,
    {
        r.push(src[i]);
        assert(r@ =~= src@.take(i + 1));
        i = i + 1;
    }
    assert(r@ =~= src@);
    r
}

impl Numeric {
    /// Evaluates this quantity against the store: a literal is itself, a
    /// variable must already be bound.
    pub fn evaluate(&self, store: &Store) -> (r: Result<i64, SpecificationError>)
        ensures
            match self@ {
                NumericModel::Literal(x) => r matches Ok(v) && v as int == x,
                NumericModel::Variable(name) => if store@.contains_key(name) {
                    r matches Ok(v) && v == store@[name]
                } else {
                    r is Err
                },
            },
    {
        match self {
            Numeric::Integer(x) => Ok(*x),
            Numeric::Variable(name) => match store.get(name) {
                Some(v) => Ok(v),
                None => Err(SpecificationError::Any),
            },
        }
    }
}

// ---------------------------------------------------------------------------
// Random sampling
// ---------------------------------------------------------------------------

/// Relies on `fastrand::i64`: a sample from the inclusive range, which the
/// crate draws uniformly; it panics only on an empty range, which the
/// precondition rules out.
#[verifier::external_body]
fn rand_i64_between(lower: i64, higher: i64) -> (r: i64)
    requires
        lower <= higher,
    ensures
        lower <= r <= higher,
{
    fastrand::i64(lower..=higher)
}

/// Relies on `fastrand::shuffle`: an in-place Fisher-Yates shuffle, which
/// reorders the slice and neither adds nor removes elements.
#[verifier::external_body]
fn shuffle_i64(values: &mut Vec<i64>)
    ensures
        final(values)@.to_multiset() == old(values)@.to_multiset(),
        final(values)@.len() == old(values)@.len(),
{
    fastrand::shuffle(values.as_mut_slice());
}

/// Samples one integer uniformly from `[lower, higher]`. An inverted range
/// is a generation error; a range of one value always yields that value.
pub fn sample_integer(lower: i64, higher: i64) -> (r: Result<i64, SpecificationError>)
    ensures
        lower <= higher ==> (r matches Ok(v) && lower <= v <= higher),
        lower == higher ==> r == Ok::<i64, SpecificationError>(lower),
        higher < lower ==> r is Err,
{
    if higher < lower {
        Err(SpecificationError::Any)
    } else {
        Ok(rand_i64_between(lower, higher))
    }
}

// ---------------------------------------------------------------------------
// Parsing
// ---------------------------------------------------------------------------

/// The declaration keyword `int`.
pub open spec fn kw_int() -> Seq<u8> {
    seq![105u8, 110u8, 116u8]
}

/// The declaration keyword `arr`.
pub open spec fn kw_arr() -> Seq<u8> {
    seq![97u8, 114u8, 114u8]
}

/// The declaration keyword `perm`.
pub open spec fn kw_perm() -> Seq<u8> {
    seq![112u8, 101u8, 114u8, 109u8]
}

/// How a token reads as a quantity: an integer literal if it is one, a
/// variable reference otherwise.
pub open spec fn numeric_of_token(t: Seq<u8>) -> NumericModel {
    if is_i64_literal(t) {
        NumericModel::Literal(literal_value(t))
    } else {
        NumericModel::Variable(t)
    }
}

/// The declarations that the tokens of one line denote, read left to right
/// from position `k`: `int NAME LOWER HIGHER`, `arr NAME LENGTH LOWER
/// HIGHER` or `perm NAME LENGTH`, back to back. `None` on an unrecognized
/// keyword or a missing field.
pub open spec fn parse_decls(toks: Seq<Seq<u8>>, k: int) -> Option<Seq<AtomModel>>
    decreases toks.len() - k,
{
    if k >= toks.len() || k < 0 {
        Some(Seq::empty())
    } else if toks[k] == kw_int() {
        if k + 4 <= toks.len() {
            match parse_decls(toks, k + 4) {
                Some(rest) => Some(
                    seq![
                        AtomModel::Integer {
                            name: toks[k + 1],
                            lower: numeric_of_token(toks[k + 2]),
                            higher: numeric_of_token(toks[k + 3]),
                        },
                    ] + rest,
                ),
                None => None,
            }
        } else {
            None
        }
    } else if toks[k] == kw_arr() {
        if k + 5 <= toks.len() {
            match parse_decls(toks, k + 5) {
                Some(rest) => Some(
                    seq![
                        AtomModel::Array {
                            name: toks[k + 1],
                            length: numeric_of_token(toks[k + 2]),
                            lower: numeric_of_token(toks[k + 3]),
                            higher: numeric_of_token(toks[k + 4]),
                        },
                    ] + rest,
                ),
                None => None,
            }
        } else {
            None
        }
    } else if toks[k] == kw_perm() {
        if k + 3 <= toks.len() {
            match parse_decls(toks, k + 3) {
                Some(rest) => Some(
                    seq![
                        AtomModel::Permutation {
                            name: toks[k + 1],
                            length: numeric_of_token(toks[k + 2]),
                        },
                    ] + rest,
                ),
                None => None,
            }
        } else {
            None
        }
    } else {
        None
    }
}

/// The atoms that the lines from `i` on denote. `sep` records whether any
/// atom came before: once a line contributes atoms, or any came before, an
/// implicit line-break atom closes the line.
pub open spec fn parse_lines(lines: Seq<Seq<u8>>, i: int, sep: bool) -> Option<Seq<AtomModel>>
    decreases lines.len() - i,
{
    if i >= lines.len() || i < 0 {
        Some(Seq::empty())
    } else {
        match parse_decls(tokens_of(lines[i]), 0) {
            Some(atoms) => {
                let head = if sep || atoms.len() > 0 {
                    atoms.push(AtomModel::NewLine)
                } else {
                    atoms
                };
                match parse_lines(lines, i + 1, sep || atoms.len() > 0) {
                    Some(rest) => Some(head + rest),
                    None => None,
                }
            },
            None => None,
        }
    }
}

/// What a specification source text denotes: the atoms of its lines in
/// order, each line closed by an implicit line break once any atom has been
/// seen, or nothing if any line is malformed.
pub open spec fn parse_spec(src: Seq<u8>) -> Option<Seq<AtomModel>> {
    parse_lines(lines_of(src), 0, false)
}

/// Whether `t` is the keyword `int`.
fn is_int_kw(t: &Vec<u8>) -> (r: bool)
    ensures
        r == (t@ == kw_int()),
{
    let r = t.len() == 3 && t[0] == 105 && t[1] == 110 && t[2] == 116;
    proof {
        if r {
            assert(t@ =~= kw_int());
        } else {
            if t@ == kw_int() {
                assert(t@.len() == 3 && t@[0] == 105 && t@[1] == 110 && t@[2] == 116);
            }
        }
    }
    r
}

/// Whether `t` is the keyword `arr`.
fn is_arr_kw(t: &Vec<u8>) -> (r: bool)
    ensures
        r == (t@ == kw_arr()),
{
    let r = t.len() == 3 && t[0] == 97 && t[1] == 114 && t[2] == 114;
    proof {
        if r {
            assert(t@ =~= kw_arr());
        } else {
            if t@ == kw_arr() {
                assert(t@.len() == 3 && t@[0] == 97 && t@[1] == 114 && t@[2] == 114);
            }
        }
    }
    r
}

/// Whether `t` is the keyword `perm`.
fn is_perm_kw(t: &Vec<u8>) -> (r: bool)
    ensures
        r == (t@ == kw_perm()),
{
    let r = t.len() == 4 && t[0] == 112 && t[1] == 101 && t[2] == 114 && t[3] == 109;
    proof {
        if r {
            assert(t@ =~= kw_perm());
        } else {
            if t@ == kw_perm() {
                assert(t@.len() == 4 && t@[0] == 112 && t@[1] == 101 && t@[2] == 114 && t@[3]
                    == 109);
            }
        }
    }
    r
}

/// Reads a token as a quantity.
fn numeric_of(t: &Vec<u8>) -> (r: Numeric)
    ensures
        r@ == numeric_of_token(t@),
{
    match parse_i64(t) {
        Some(v) => Numeric::Integer(v),
        None => Numeric::Variable(copy_bytes(t)),
    }
}

impl Specification {
    /// Parses a specification source text into its atoms: one or more
    /// whitespace-separated declarations per line, each line closed by an
    /// implicit line break once any atom has been seen.
    #[verifier::loop_isolation(false)]
    pub fn parse(src: &Vec<u8>) -> (r: Result<Specification, SpecificationError>)
        ensures
            r matches Ok(s) ==> parse_spec(src@) == Some(s@),
            r is Err ==> parse_spec(src@) is None,
    {
        let lines = split_lines(src);
        let ghost linesv = lines@.map_values(|l: Vec<u8>| l@);
        let mut atoms: Vec<SpecificationAtom> = Vec::new();
        let mut i: usize = 0;
        assert(atoms@.map_values(|a: SpecificationAtom| a@) =~= Seq::<AtomModel>::empty());
        while i < lines.len()
            invariant
                i <= lines@.len(),
                linesv == lines@.map_values(|l: Vec<u8>| l@),
                parse_spec(src@) == match parse_lines(
                    linesv,
                    i as int,
                    atoms@.len() > 0,
                ) {
                    Some(rest) => Some(atoms@.map_values(|a: SpecificationAtom| a@) + rest),
                    None => None::<Seq<AtomModel>>,
                },
            decreases lines@.len() - i,
        {
            let ghost sep = atoms@.len() > 0;
            let ghost before = atoms@.map_values(|a: SpecificationAtom| a@);
            let toks = split_tokens(&lines[i]);
            let ghost toksv = toks@.map_values(|t: Vec<u8>| t@);
            assert(toksv == tokens_of(linesv[i as int]));
            let mut line_atoms: Vec<SpecificationAtom> = Vec::new();
            let mut k: usize = 0;
            assert(line_atoms@.map_values(|a: SpecificationAtom| a@) =~= Seq::<
                AtomModel,
            >::empty());
            while k < toks.len()
                invariant
                    k <= toks@.len(),
                    toksv == toks@.map_values(|t: Vec<u8>| t@),
                    parse_decls(toksv, 0) == match parse_decls(toksv, k as int) {
                        Some(rest) => Some(
                            line_atoms@.map_values(|a: SpecificationAtom| a@) + rest,
                        ),
                        None => None::<Seq<AtomModel>>,
                    },
                decreases toks@.len() - k,
            {
                let ghost done = line_atoms@.map_values(|a: SpecificationAtom| a@);
                if is_int_kw(&toks[k]) {
                    if toks.len() - k < 4 {
                        proof {
                            assert(parse_decls(toksv, k as int) is None);
                            assert(parse_decls(toksv, 0) is None);
                            assert(i < linesv.len());
                            assert(parse_decls(tokens_of(linesv[i as int]), 0) is None);
                            assert(parse_lines(linesv, i as int, sep) is None);
                        }
                        return Err(SpecificationError::Any);
                    }
                    let name = copy_bytes(&toks[k + 1]);
                    let lower = numeric_of(&toks[k + 2]);
                    let higher = numeric_of(&toks[k + 3]);
                    line_atoms.push(SpecificationAtom::Integer { name, lower, higher });
                    proof {
                        let am = AtomModel::Integer {
                            name: toksv[k as int + 1],
                            lower: numeric_of_token(toksv[k as int + 2]),
                            higher: numeric_of_token(toksv[k as int + 3]),
                        };
                        assert(line_atoms@.map_values(|a: SpecificationAtom| a@) =~= done.push(
                            am,
                        ));
                        if let Some(rest) = parse_decls(toksv, k + 4) {
                            assert(done + (seq![am] + rest) =~= done.push(am) + rest);
                        }
                    }
                    k = k + 4;
                } else if is_arr_kw(&toks[k]) {
                    if toks.len() - k < 5 {
                        proof {
                            assert(parse_decls(toksv, k as int) is None);
                            assert(parse_decls(toksv, 0) is None);
                            assert(i < linesv.len());
                            assert(parse_decls(tokens_of(linesv[i as int]), 0) is None);
                            assert(parse_lines(linesv, i as int, sep) is None);
                        }
                        return Err(SpecificationError::Any);
                    }
                    let name = copy_bytes(&toks[k + 1]);
                    let length = numeric_of(&toks[k + 2]);
                    let lower = numeric_of(&toks[k + 3]);
                    let higher = numeric_of(&toks[k + 4]);
                    line_atoms.push(SpecificationAtom::Array { name, length, lower, higher });
                    proof {
                        let am = AtomModel::Array {
                            name: toksv[k as int + 1],
                            length: numeric_of_token(toksv[k as int + 2]),
                            lower: numeric_of_token(toksv[k as int + 3]),
                            higher: numeric_of_token(toksv[k as int + 4]),
                        };
                        assert(line_atoms@.map_values(|a: SpecificationAtom| a@) =~= done.push(
                            am,
                        ));
                        if let Some(rest) = parse_decls(toksv, k + 5) {
                            assert(done + (seq![am] + rest) =~= done.push(am) + rest);
                        }
                    }
                    k = k + 5;
                } else if is_perm_kw(&toks[k]) {
                    if toks.len() - k < 3 {
                        proof {
                            assert(parse_decls(toksv, k as int) is None);
                            assert(parse_decls(toksv, 0) is None);
                            assert(i < linesv.len());
                            assert(parse_decls(tokens_of(linesv[i as int]), 0) is None);
                            assert(parse_lines(linesv, i as int, sep) is None);
                        }
                        return Err(SpecificationError::Any);
                    }
                    let name = copy_bytes(&toks[k + 1]);
                    let length = numeric_of(&toks[k + 2]);
                    line_atoms.push(SpecificationAtom::Permutation { name, length });
                    proof {
                        let am = AtomModel::Permutation {
                            name: toksv[k as int + 1],
                            length: numeric_of_token(toksv[k as int + 2]),
                        };
                        assert(line_atoms@.map_values(|a: SpecificationAtom| a@) =~= done.push(
                            am,
                        ));
                        if let Some(rest) = parse_decls(toksv, k + 3) {
                            assert(done + (seq![am] + rest) =~= done.push(am) + rest);
                        }
                    }
                    k = k + 3;
                } else {
                    proof {
                        assert(parse_decls(toksv, k as int) is None);
                        assert(parse_decls(toksv, 0) is None);
                        assert(i < linesv.len());
                        assert(parse_decls(tokens_of(linesv[i as int]), 0) is None);
                        assert(parse_lines(linesv, i as int, sep) is None);
                    }
                    return Err(SpecificationError::Any);
                }
            }
            assert(parse_decls(toksv, k as int) == Some(Seq::<AtomModel>::empty()));
            let ghost linev = line_atoms@.map_values(|a: SpecificationAtom| a@);
            assert(parse_decls(toksv, 0) == Some(linev)) by {
                assert(linev + Seq::<AtomModel>::empty() =~= linev);
            }
            let ghost sep2 = sep || linev.len() > 0;
            let ghost head = if sep2 {
                linev.push(AtomModel::NewLine)
            } else {
                linev
            };
            let mut moved = line_atoms;
            atoms.append(&mut moved);
            proof {
                assert(atoms@.map_values(|a: SpecificationAtom| a@) =~= before + linev);
            }
            if atoms.len() > 0 {
                atoms.push(SpecificationAtom::NewLine);
                proof {
                    assert(atoms@.map_values(|a: SpecificationAtom| a@) =~= (before + linev).push(
                        AtomModel::NewLine,
                    ));
                }
            }
            proof {
                assert(sep2 <==> before.len() + linev.len() > 0);
                assert(before + head =~= atoms@.map_values(|a: SpecificationAtom| a@));
                assert((atoms@.len() > 0) == sep2);
                if let Some(rest) = parse_lines(linesv, i + 1, sep2) {
                    assert(before + (head + rest) =~= (before + head) + rest);
                }
            }
            i = i + 1;
        }
        assert(parse_lines(linesv, i as int, atoms@.len() > 0) == Some(Seq::<AtomModel>::empty()));
        let ghost av = atoms@.map_values(|a: SpecificationAtom| a@);
        assert(av + Seq::<AtomModel>::empty() =~= av);
        Ok(Specification { atoms })
    }
}

// ---------------------------------------------------------------------------
// What generation guarantees
// ---------------------------------------------------------------------------

/// A quantity can be evaluated once the names in `defined` are bound.
pub open spec fn numeric_resolved(n: NumericModel, defined: Set<Seq<u8>>) -> bool {
    match n {
        NumericModel::Literal(_) => true,
        NumericModel::Variable(name) => defined.contains(name),
    }
}

/// The names bound by the integer declarations among the first `i` atoms.
pub open spec fn defined_before(atoms: Seq<AtomModel>, i: int) -> Set<Seq<u8>>
    decreases i,
{
    if i <= 0 {
        Set::empty()
    } else {
        match atoms[i - 1] {
            AtomModel::Integer { name, .. } => defined_before(atoms, i - 1).insert(name),
            _ => defined_before(atoms, i - 1),
        }
    }
}

/// Every quantity of `a` can be evaluated once the names in `defined` are
/// bound.
pub open spec fn atom_resolved(a: AtomModel, defined: Set<Seq<u8>>) -> bool {
    match a {
        AtomModel::Integer { lower, higher, .. } => numeric_resolved(lower, defined)
            && numeric_resolved(higher, defined),
        AtomModel::Array { length, lower, higher, .. } => numeric_resolved(length, defined)
            && numeric_resolved(lower, defined) && numeric_resolved(higher, defined),
        AtomModel::Permutation { length, .. } => numeric_resolved(length, defined),
        AtomModel::NewLine => true,
    }
}

/// Every variable reference in `atoms` names an integer declared earlier:
/// generation can never fail for want of a binding.
pub open spec fn names_resolved(atoms: Seq<AtomModel>) -> bool {
    forall|i: int|
        0 <= i < atoms.len() ==> atom_resolved(#[trigger] atoms[i], defined_before(atoms, i))
}

/// The atom is doomed by its literals alone: inverted bounds or a negative
/// length that no sampled value can repair.
pub open spec fn literal_failure(a: AtomModel) -> bool {
    ||| (a matches AtomModel::Integer {
        lower: NumericModel::Literal(l),
        higher: NumericModel::Literal(h),
        ..
    } && h < l)
    ||| (a matches AtomModel::Array { length: NumericModel::Literal(n), .. } && n < 0)
    ||| (a matches AtomModel::Array {
        lower: NumericModel::Literal(l),
        higher: NumericModel::Literal(h),
        ..
    } && h < l)
    ||| (a matches AtomModel::Permutation { length: NumericModel::Literal(n), .. } && n < 0)
}

/// Some atom of `atoms` is doomed by its literals: generation must fail.
pub open spec fn has_literal_failure(atoms: Seq<AtomModel>) -> bool {
    exists|i: int| 0 <= i < atoms.len() && literal_failure(#[trigger] atoms[i])
}

/// The atom uses literals only, and they are in order: nothing about it can
/// fail at generation time.
pub open spec fn atom_static_ok(a: AtomModel) -> bool {
    match a {
        AtomModel::Integer { lower, higher, .. } => {
            &&& lower matches NumericModel::Literal(l)
            &&& higher matches NumericModel::Literal(h)
            &&& l <= h
        },
        AtomModel::Array { length, lower, higher, .. } => {
            &&& length matches NumericModel::Literal(n)
            &&& n >= 0
            &&& lower matches NumericModel::Literal(l)
            &&& higher matches NumericModel::Literal(h)
            &&& l <= h
        },
        AtomModel::Permutation { length, .. } => {
            &&& length matches NumericModel::Literal(n)
            &&& n >= 0
        },
        AtomModel::NewLine => true,
    }
}

/// Every atom is fully literal and in order: generation must succeed.
pub open spec fn statically_valid(atoms: Seq<AtomModel>) -> bool {
    forall|i: int| 0 <= i < atoms.len() ==> atom_static_ok(#[trigger] atoms[i])
}

/// The number of values the atom emits does not depend on sampled values:
/// its array or permutation length, if any, is a literal.
pub open spec fn atom_shape_static(a: AtomModel) -> bool {
    match a {
        AtomModel::Array { length, .. } => length is Literal,
        AtomModel::Permutation { length, .. } => length is Literal,
        _ => true,
    }
}

/// No atom's emission count depends on sampled values.
pub open spec fn shape_static(atoms: Seq<AtomModel>) -> bool {
    forall|i: int| 0 <= i < atoms.len() ==> atom_shape_static(#[trigger] atoms[i])
}

/// How many tokens the atom emits, when that is fixed in advance.
pub open spec fn atom_tokens(a: AtomModel) -> nat {
    match a {
        AtomModel::Integer { .. } => 1,
        AtomModel::Array { length: NumericModel::Literal(n), .. } => if n >= 0 {
            n as nat
        } else {
            0
        },
        AtomModel::Permutation { length: NumericModel::Literal(n), .. } => if n >= 0 {
            n as nat
        } else {
            0
        },
        AtomModel::NewLine => 0,
        _ => 0,
    }
}

/// How many tokens the first `i` atoms emit, when that is fixed in advance.
pub open spec fn shape_tokens(atoms: Seq<AtomModel>, i: int) -> nat
    decreases i,
{
    if i <= 0 {
        0
    } else {
        shape_tokens(atoms, i - 1) + atom_tokens(atoms[i - 1])
    }
}

/// How many newlines the first `i` atoms emit.
pub open spec fn shape_newlines(atoms: Seq<AtomModel>, i: int) -> nat
    decreases i,
{
    if i <= 0 {
        0
    } else {
        shape_newlines(atoms, i - 1) + if atoms[i - 1] is NewLine {
            1nat
        } else {
            0nat
        }
    }
}

/// The sampling range behind each token the atom emits, when the atom is
/// fully literal.
pub open spec fn atom_ranges(a: AtomModel) -> Seq<(int, int)> {
    match a {
        AtomModel::Integer {
            lower: NumericModel::Literal(l),
            higher: NumericModel::Literal(h),
            ..
        } => seq![(l, h)],
        AtomModel::Array {
            length: NumericModel::Literal(n),
            lower: NumericModel::Literal(l),
            higher: NumericModel::Literal(h),
            ..
        } => Seq::new(
            if n >= 0 {
                n as nat
            } else {
                0nat
            },
            |k: int| (l, h),
        ),
        AtomModel::Permutation { length: NumericModel::Literal(n), .. } => Seq::new(
            if n >= 0 {
                n as nat
            } else {
                0nat
            },
            |k: int| (1int, n),
        ),
        AtomModel::NewLine => Seq::empty(),
        _ => Seq::empty(),
    }
}

/// The ranges behind the tokens of the first `i` atoms.
pub open spec fn static_ranges(atoms: Seq<AtomModel>, i: int) -> Seq<(int, int)>
    decreases i,
{
    if i <= 0 {
        Seq::empty()
    } else {
        static_ranges(atoms, i - 1) + atom_ranges(atoms[i - 1])
    }
}

/// Each token is an integer literal whose value lies within its range.
#[verifier::opaque]
pub open spec fn tokens_within(toks: Seq<Seq<u8>>, rngs: Seq<(int, int)>) -> bool {
    &&& toks.len() == rngs.len()
    &&& forall|j: int|
        0 <= j < toks.len() ==> is_i64_literal(#[trigger] toks[j]) && rngs[j].0 <= literal_value(
            toks[j],
        ) <= rngs[j].1
}

/// Appending one in-range token keeps every token within its range.
proof fn lemma_tokens_within_push(
    toks: Seq<Seq<u8>>,
    rngs: Seq<(int, int)>,
    w: Seq<u8>,
    lo: int,
    hi: int,
)
    requires
        tokens_within(toks, rngs),
        is_i64_literal(w),
        lo <= literal_value(w) <= hi,
    ensures
        tokens_within(toks.push(w), rngs.push((lo, hi))),
{
    reveal(tokens_within);
    assert forall|j: int| 0 <= j < toks.push(w).len() implies is_i64_literal(
        #[trigger] toks.push(w)[j],
    ) && rngs.push((lo, hi))[j].0 <= literal_value(toks.push(w)[j]) <= rngs.push((lo, hi))[j].1 by {
        if j < toks.len() {
            assert(toks.push(w)[j] == toks[j]);
            assert(rngs.push((lo, hi))[j] == rngs[j]);
        }
    }
}

/// A byte that generation may emit: a digit, a minus sign, a space or a
/// newline.
pub open spec fn emit_byte(b: u8) -> bool {
    is_digit(b) || b == 45 || b == 32 || b == 10
}

/// Every byte of `s` is one that generation may emit.
pub open spec fn emit_bytes(s: Seq<u8>) -> bool {
    forall|i: int| 0 <= i < s.len() ==> emit_byte(#[trigger] s[i])
}

/// `n` copies of the emitted form of `v`.
pub open spec fn repeat_token(v: int, n: int) -> Seq<u8>
    decreases n,
{
    if n <= 0 {
        Seq::empty()
    } else {
        repeat_token(v, n - 1) + int_token(v)
    }
}

/// The emitted forms of the first `k` values of `vs`, in order.
pub open spec fn tokens_of_values(vs: Seq<i64>, k: int) -> Seq<u8>
    decreases k,
{
    if k <= 0 {
        Seq::empty()
    } else {
        tokens_of_values(vs, k - 1) + int_token(vs[k - 1] as int)
    }
}

/// The value a quantity is pinned to by the environment, if any.
#[verifier::opaque]
pub open spec fn pinned_value(n: NumericModel, env: Map<Seq<u8>, i64>) -> Option<i64> {
    match n {
        NumericModel::Literal(x) => if i64::MIN <= x <= i64::MAX {
            Some(x as i64)
        } else {
            None
        },
        NumericModel::Variable(name) => if env.contains_key(name) {
            Some(env[name])
        } else {
            None
        },
    }
}

/// What one atom must emit, and how it extends the environment, when chance
/// has no freedom in it: every sampling range holds a single value and a
/// permutation has length at most one. `None` wherever a draw could vary or
/// the atom must fail.
#[verifier::opaque]
pub open spec fn pinned_step(a: AtomModel, env: Map<Seq<u8>, i64>) -> Option<
    (Seq<u8>, Map<Seq<u8>, i64>),
> {
    match a {
        AtomModel::Integer { name, lower, higher } => match (
            pinned_value(lower, env),
            pinned_value(higher, env),
        ) {
            (Some(l), Some(h)) => if l == h {
                Some((int_token(l as int), env.insert(name, l)))
            } else {
                None
            },
            _ => None,
        },
        AtomModel::Array { length, lower, higher, .. } => match (
            pinned_value(length, env),
            pinned_value(lower, env),
            pinned_value(higher, env),
        ) {
            (Some(n), Some(l), Some(h)) => if n >= 0 && l == h {
                Some((repeat_token(l as int, n as int), env))
            } else {
                None
            },
            _ => None,
        },
        AtomModel::Permutation { length, .. } => match pinned_value(length, env) {
            Some(n) => if n == 0 {
                Some((Seq::empty(), env))
            } else if n == 1 {
                Some((int_token(1), env))
            } else {
                None
            },
            _ => None,
        },
        AtomModel::NewLine => Some((seq![10u8], env)),
    }
}

/// The exact output of the first `i` atoms when every step is pinned,
/// together with the environment the walk leaves behind.
pub open spec fn pinned_output(atoms: Seq<AtomModel>, i: int) -> Option<
    (Seq<u8>, Map<Seq<u8>, i64>),
>
    decreases i,
{
    if i <= 0 {
        Some((Seq::empty(), Map::empty()))
    } else {
        match pinned_output(atoms, i - 1) {
            Some(oe) => match pinned_step(atoms[i - 1], oe.1) {
                Some(pe) => Some((oe.0 + pe.0, pe.1)),
                None => None,
            },
            None => None,
        }
    }
}

/// A prefix of a pinned walk is pinned.
proof fn lemma_pinned_prefix(atoms: Seq<AtomModel>, i: int, j: int)
    requires
        0 <= i <= j,
        pinned_output(atoms, j) is Some,
    ensures
        pinned_output(atoms, i) is Some,
    decreases j - i,
{
    if i < j {
        lemma_pinned_prefix(atoms, i, j - 1);
    }
}

/// Extending the token sequence by values from one range extends the range
/// list by that many copies of the range.
proof fn lemma_tokens_within_extend(
    toks0: Seq<Seq<u8>>,
    rngs0: Seq<(int, int)>,
    toks1: Seq<Seq<u8>>,
    lo: int,
    hi: int,
)
    requires
        tokens_within(toks0, rngs0),
        toks0.len() <= toks1.len(),
        forall|j: int| 0 <= j < toks0.len() ==> #[trigger] toks1[j] == toks0[j],
        forall|j: int|
            toks0.len() <= j < toks1.len() ==> is_i64_literal(#[trigger] toks1[j]) && lo
                <= literal_value(toks1[j]) <= hi,
    ensures
        tokens_within(
            toks1,
            rngs0 + Seq::new((toks1.len() - toks0.len()) as nat, |k: int| (lo, hi)),
        ),
{
    reveal(tokens_within);
}

/// Emits `len` integers sampled from `[lo, hi]`, each followed by a space.
#[verifier::loop_isolation(false)]
fn emit_array(out: &mut Vec<u8>, lo: i64, hi: i64, len: i64)
    requires
        lo <= hi,
        0 <= len,
        emit_bytes(old(out)@),
        old(out)@.len() == 0 || is_ws(old(out)@.last()),
    ensures
        emit_bytes(final(out)@),
        final(out)@.len() == 0 || is_ws(final(out)@.last()),
        token_count(final(out)@) == token_count(old(out)@) + len,
        newline_count(final(out)@) == newline_count(old(out)@),
        tokens_of(final(out)@).len() == tokens_of(old(out)@).len() + len,
        forall|j: int|
            0 <= j < tokens_of(old(out)@).len() ==> #[trigger] tokens_of(final(out)@)[j]
                == tokens_of(old(out)@)[j],
        forall|j: int|
            tokens_of(old(out)@).len() <= j < tokens_of(final(out)@).len() ==> is_i64_literal(
                #[trigger] tokens_of(final(out)@)[j],
            ) && lo <= literal_value(tokens_of(final(out)@)[j]) <= hi,
        lo == hi ==> final(out)@ == old(out)@ + repeat_token(lo as int, len as int),
{
    let ghost pre = out@;
    let mut c: i64 = 0;
    assert(pre + repeat_token(lo as int, 0) =~= pre);
    while c < len
        invariant
            0 <= c <= len,
            emit_bytes(out@),
            out@.len() == 0 || is_ws(out@.last()),
            token_count(out@) == token_count(pre) + c,
            newline_count(out@) == newline_count(pre),
            tokens_of(out@).len() == tokens_of(pre).len() + c,
            forall|j: int|
                0 <= j < tokens_of(pre).len() ==> #[trigger] tokens_of(out@)[j] == tokens_of(
                    pre,
                )[j],
            forall|j: int|
                tokens_of(pre).len() <= j < tokens_of(out@).len() ==> is_i64_literal(
                    #[trigger] tokens_of(out@)[j],
                ) && lo <= literal_value(tokens_of(out@)[j]) <= hi,
            lo == hi ==> out@ == pre + repeat_token(lo as int, c as int),
        decreases len - c,
    {
        let val = rand_i64_between(lo, hi);
        let ghost mid = out@;
        push_int_token(out, val);
        proof {
            crate::text::lemma_dec_repr_bytes(val as int);
            crate::text::lemma_counts_append_token(mid, crate::text::dec_repr(val as int));
            crate::text::lemma_tokens_append_word_token(mid, crate::text::dec_repr(val as int));
            crate::text::lemma_dec_repr_reads_back(val);
            assert(tokens_of(out@) == tokens_of(mid).push(crate::text::dec_repr(val as int)));
            if lo == hi {
                assert(out@ =~= pre + repeat_token(lo as int, c + 1));
            }
        }
        c = c + 1;
    }
}

/// Emits a uniformly random permutation of `1..=len`, each value followed
/// by a space.
#[verifier::loop_isolation(false)]
fn emit_permutation(out: &mut Vec<u8>, len: i64)
    requires
        0 <= len,
        emit_bytes(old(out)@),
        old(out)@.len() == 0 || is_ws(old(out)@.last()),
    ensures
        emit_bytes(final(out)@),
        final(out)@.len() == 0 || is_ws(final(out)@.last()),
        token_count(final(out)@) == token_count(old(out)@) + len,
        newline_count(final(out)@) == newline_count(old(out)@),
        tokens_of(final(out)@).len() == tokens_of(old(out)@).len() + len,
        forall|j: int|
            0 <= j < tokens_of(old(out)@).len() ==> #[trigger] tokens_of(final(out)@)[j]
                == tokens_of(old(out)@)[j],
        forall|j: int|
            tokens_of(old(out)@).len() <= j < tokens_of(final(out)@).len() ==> is_i64_literal(
                #[trigger] tokens_of(final(out)@)[j],
            ) && 1 <= literal_value(tokens_of(final(out)@)[j]) <= len,
        len == 0 ==> final(out)@ == old(out)@,
        len == 1 ==> final(out)@ == old(out)@ + int_token(1),
{
    let perm = random_permutation(len);
    let ghost pre = out@;
    let mut idx: usize = 0;
    assert(pre + tokens_of_values(perm@, 0) =~= pre);
    while idx < perm.len()
        invariant
            idx <= perm@.len(),
            emit_bytes(out@),
            out@.len() == 0 || is_ws(out@.last()),
            token_count(out@) == token_count(pre) + idx,
            newline_count(out@) == newline_count(pre),
            tokens_of(out@).len() == tokens_of(pre).len() + idx,
            forall|j: int|
                0 <= j < tokens_of(pre).len() ==> #[trigger] tokens_of(out@)[j] == tokens_of(
                    pre,
                )[j],
            forall|j: int|
                tokens_of(pre).len() <= j < tokens_of(out@).len() ==> is_i64_literal(
                    #[trigger] tokens_of(out@)[j],
                ) && 1 <= literal_value(tokens_of(out@)[j]) <= len,
            out@ == pre + tokens_of_values(perm@, idx as int),
        decreases perm@.len() - idx,
    {
        let val = perm[idx];
        let ghost mid = out@;
        push_int_token(out, val);
        proof {
            crate::text::lemma_dec_repr_bytes(val as int);
            crate::text::lemma_counts_append_token(mid, crate::text::dec_repr(val as int));
            crate::text::lemma_tokens_append_word_token(mid, crate::text::dec_repr(val as int));
            crate::text::lemma_dec_repr_reads_back(val);
            assert(tokens_of(out@) == tokens_of(mid).push(crate::text::dec_repr(val as int)));
            assert(out@ =~= pre + tokens_of_values(perm@, idx + 1));
        }
        idx = idx + 1;
    }
    proof {
        broadcast use vstd::seq_lib::group_to_multiset_ensures;

        if len == 0 {
            assert(out@ =~= pre);
        }
        if len == 1 {
            assert(perm@.len() == 1);
            assert(perm@.contains(perm@[0]));
            assert(perm@.to_multiset().count(perm@[0]) > 0);
            assert(one_to(1).to_multiset().count(perm@[0]) > 0);
            assert(one_to(1).contains(perm@[0]));
            assert(perm@[0] == 1);
            assert(tokens_of_values(perm@, 1) =~= int_token(1));
            assert(out@ =~= pre + int_token(1));
        }
    }
}

impl Specification {
    /// Walks the atoms once with a fresh store and a fresh buffer, sampling
    /// anew: the randomized input for one fuzz iteration.
    ///
    /// The outcome is pinned down as far as a randomized result can be: a
    /// specification whose literals are contradictory, or that reads an
    /// unbound name, fails on every call; a fully literal, well-ordered one
    /// succeeds on every call; whenever the atoms fix the emission counts in
    /// advance, the token and newline counts of the output equal those
    /// counts, whatever values were drawn; every token of the output reads
    /// back as an integer, and for a fully literal specification each lies
    /// within its declaration's range; and wherever chance has no freedom at
    /// all, the output is the one exact byte sequence the atoms denote.
    #[verifier::loop_isolation(false)]
    #[verifier::rlimit(100)]
    pub fn generate(&self) -> (r: Result<Vec<u8>, SpecificationError>)
        ensures
            !names_resolved(self@) ==> r is Err,
            has_literal_failure(self@) ==> r is Err,
            statically_valid(self@) ==> r is Ok,
            r matches Ok(out) ==> emit_bytes(out@),
            r matches Ok(out) ==> (shape_static(self@) ==> token_count(out@) == shape_tokens(
                self@,
                self@.len() as int,
            ) && newline_count(out@) == shape_newlines(self@, self@.len() as int)),
            pinned_output(self@, self@.len() as int) matches Some(oe) ==> (r matches Ok(out)
                && out@ == oe.0),
            r matches Ok(out) ==> (statically_valid(self@) ==> tokens_within(
                tokens_of(out@),
                static_ranges(self@, self@.len() as int),
            )),
            r matches Ok(out) ==> forall|j: int|
                0 <= j < tokens_of(out@).len() ==> is_i64_literal(#[trigger] tokens_of(out@)[j]),
    {
        let ghost atoms = self@;
        let mut store = Store::new();
        let mut out: Vec<u8> = Vec::new();
        let mut i: usize = 0;
        let ghost mut rngs: Seq<(int, int)> = Seq::empty();
        assert(out@ =~= Seq::<u8>::empty());
        assert(tokens_of(out@) =~= Seq::<Seq<u8>>::empty());
        proof {
            reveal(tokens_within);
            assert(tokens_within(tokens_of(out@), rngs));
        }
        while i < self.atoms.len()
            invariant
                i <= atoms.len(),
                atoms.len() == self.atoms@.len(),
                store@.dom() =~= defined_before(atoms, i as int),
                tokens_within(tokens_of(out@), rngs),
                statically_valid(atoms) ==> rngs == static_ranges(atoms, i as int),
                pinned_output(atoms, atoms.len() as int) is Some ==> (pinned_output(
                    atoms,
                    i as int,
                ) matches Some(oe) && out@ == oe.0 && store@ == oe.1),
                forall|j: int| 0 <= j < i ==> atom_resolved(#[trigger] atoms[j], defined_before(atoms, j)),
                forall|j: int| 0 <= j < i ==> !literal_failure(#[trigger] atoms[j]),
                emit_bytes(out@),
                out@.len() == 0 || is_ws(out@.last()),
                shape_static(atoms) ==> token_count(out@) == shape_tokens(atoms, i as int)
                    && newline_count(out@) == shape_newlines(atoms, i as int),
            decreases atoms.len() - i,
        {
            let ghost d = defined_before(atoms, i as int);
            match &self.atoms[i] {
                SpecificationAtom::Integer { name, lower, higher } => {
                    let lo = match lower.evaluate(&store) {
                        Ok(v) => v,
                        Err(e) => {
                            assert(!atom_static_ok(atoms[i as int]));
                            proof {
                                if pinned_output(atoms, atoms.len() as int) is Some {
                                    reveal(pinned_value);
                                    reveal(pinned_step);
                                    lemma_pinned_prefix(atoms, i as int + 1, atoms.len() as int);
                                    assert(pinned_step(atoms[i as int], store@) is Some);
                                    assert(false);
                                }
                            }
                            return Err(e);
                        },
                    };
                    let hi = match higher.evaluate(&store) {
                        Ok(v) => v,
                        Err(e) => {
                            assert(!atom_static_ok(atoms[i as int]));
                            proof {
                                if pinned_output(atoms, atoms.len() as int) is Some {
                                    reveal(pinned_value);
                                    reveal(pinned_step);
                                    lemma_pinned_prefix(atoms, i as int + 1, atoms.len() as int);
                                    assert(pinned_step(atoms[i as int], store@) is Some);
                                    assert(false);
                                }
                            }
                            return Err(e);
                        },
                    };
                    let val = match sample_integer(lo, hi) {
                        Ok(v) => v,
                        Err(e) => {
                            assert(!atom_static_ok(atoms[i as int]));
                            proof {
                                if pinned_output(atoms, atoms.len() as int) is Some {
                                    reveal(pinned_value);
                                    reveal(pinned_step);
                                    lemma_pinned_prefix(atoms, i as int + 1, atoms.len() as int);
                                    assert(pinned_step(atoms[i as int], store@) is Some);
                                    assert(false);
                                }
                            }
                            return Err(e);
                        },
                    };
                    let ghost env = store@;
                    store.insert(copy_bytes(name), val);
                    let ghost pre = out@;
                    push_int_token(&mut out, val);
                    proof {
                        crate::text::lemma_dec_repr_bytes(val as int);
                        crate::text::lemma_counts_append_token(pre, crate::text::dec_repr(
                            val as int,
                        ));
                        crate::text::lemma_tokens_append_word_token(pre, crate::text::dec_repr(
                            val as int,
                        ));
                        crate::text::lemma_dec_repr_reads_back(val);
                        assert(lo <= val <= hi);
                        lemma_tokens_within_push(
                            tokens_of(pre),
                            rngs,
                            crate::text::dec_repr(val as int),
                            lo as int,
                            hi as int,
                        );
                        rngs = rngs.push((lo as int, hi as int));
                        assert(tokens_of(out@) == tokens_of(pre).push(crate::text::dec_repr(
                            val as int,
                        )));
                        if statically_valid(atoms) {
                            assert(atom_ranges(atoms[i as int]) =~= seq![(lo as int, hi as int)]);
                            assert(rngs =~= static_ranges(atoms, i as int + 1));
                        }
                        assert(atom_resolved(atoms[i as int], d));
                        assert(!literal_failure(atoms[i as int]));
                        assert(defined_before(atoms, i + 1) =~= d.insert(name@));
                        if pinned_output(atoms, atoms.len() as int) is Some {
                            reveal(pinned_value);
                            reveal(pinned_step);
                            lemma_pinned_prefix(atoms, i as int + 1, atoms.len() as int);
                            let oe = pinned_output(atoms, i as int).unwrap();
                            let pe = pinned_step(atoms[i as int], oe.1).unwrap();
                            assert(pinned_value(lower@, env) == Some(lo));
                            assert(pinned_value(higher@, env) == Some(hi));
                            assert(lo == hi);
                            assert(out@ =~= oe.0 + pe.0);
                            assert(store@ == pe.1);
                        }
                    }
                },
                SpecificationAtom::Array { length, lower, higher, .. } => {
                    let len = match length.evaluate(&store) {
                        Ok(v) => v,
                        Err(e) => {
                            assert(!atom_static_ok(atoms[i as int]));
                            proof {
                                if pinned_output(atoms, atoms.len() as int) is Some {
                                    reveal(pinned_value);
                                    reveal(pinned_step);
                                    lemma_pinned_prefix(atoms, i as int + 1, atoms.len() as int);
                                    assert(pinned_step(atoms[i as int], store@) is Some);
                                    assert(false);
                                }
                            }
                            return Err(e);
                        },
                    };
                    if len < 0 {
                        assert(!atom_static_ok(atoms[i as int]));
                        proof {
                            if pinned_output(atoms, atoms.len() as int) is Some {
                                reveal(pinned_value);
                                reveal(pinned_step);
                                lemma_pinned_prefix(atoms, i as int + 1, atoms.len() as int);
                                assert(pinned_step(atoms[i as int], store@) is Some);
                                assert(false);
                            }
                        }
                        return Err(SpecificationError::Any);
                    }
                    let lo = match lower.evaluate(&store) {
                        Ok(v) => v,
                        Err(e) => {
                            assert(!atom_static_ok(atoms[i as int]));
                            proof {
                                if pinned_output(atoms, atoms.len() as int) is Some {
                                    reveal(pinned_value);
                                    reveal(pinned_step);
                                    lemma_pinned_prefix(atoms, i as int + 1, atoms.len() as int);
                                    assert(pinned_step(atoms[i as int], store@) is Some);
                                    assert(false);
                                }
                            }
                            return Err(e);
                        },
                    };
                    let hi = match higher.evaluate(&store) {
                        Ok(v) => v,
                        Err(e) => {
                            assert(!atom_static_ok(atoms[i as int]));
                            proof {
                                if pinned_output(atoms, atoms.len() as int) is Some {
                                    reveal(pinned_value);
                                    reveal(pinned_step);
                                    lemma_pinned_prefix(atoms, i as int + 1, atoms.len() as int);
                                    assert(pinned_step(atoms[i as int], store@) is Some);
                                    assert(false);
                                }
                            }
                            return Err(e);
                        },
                    };
                    if hi < lo {
                        assert(!atom_static_ok(atoms[i as int]));
                        proof {
                            if pinned_output(atoms, atoms.len() as int) is Some {
                                reveal(pinned_value);
                                reveal(pinned_step);
                                lemma_pinned_prefix(atoms, i as int + 1, atoms.len() as int);
                                assert(pinned_step(atoms[i as int], store@) is Some);
                                assert(false);
                            }
                        }
                        return Err(SpecificationError::Any);
                    }
                    let ghost pre = out@;
                    let ghost rngs0 = rngs;
                    emit_array(&mut out, lo, hi, len);
                    proof {
                        lemma_tokens_within_extend(
                            tokens_of(pre),
                            rngs0,
                            tokens_of(out@),
                            lo as int,
                            hi as int,
                        );
                        rngs = rngs0 + Seq::new(len as nat, |k: int| (lo as int, hi as int));
                        assert(rngs0 + Seq::new(
                            (tokens_of(out@).len() - tokens_of(pre).len()) as nat,
                            |k: int| (lo as int, hi as int),
                        ) =~= rngs);
                        assert(atom_resolved(atoms[i as int], d));
                        assert(!literal_failure(atoms[i as int]));
                        assert(defined_before(atoms, i + 1) =~= d);
                        if shape_static(atoms) {
                            assert(atom_shape_static(atoms[i as int]));
                            assert(atom_tokens(atoms[i as int]) == len);
                        }
                        if statically_valid(atoms) {
                            assert(atom_ranges(atoms[i as int]) =~= Seq::new(
                                len as nat,
                                |k: int| (lo as int, hi as int),
                            ));
                            assert(rngs =~= static_ranges(atoms, i as int + 1));
                        }
                        if pinned_output(atoms, atoms.len() as int) is Some {
                            reveal(pinned_value);
                            reveal(pinned_step);
                            lemma_pinned_prefix(atoms, i as int + 1, atoms.len() as int);
                            let oe = pinned_output(atoms, i as int).unwrap();
                            let pe = pinned_step(atoms[i as int], oe.1).unwrap();
                            assert(pinned_value(length@, oe.1) == Some(len));
                            assert(pinned_value(lower@, oe.1) == Some(lo));
                            assert(pinned_value(higher@, oe.1) == Some(hi));
                            assert(lo == hi);
                            assert(out@ =~= oe.0 + pe.0);
                            assert(store@ == pe.1);
                        }
                    }
                },
                SpecificationAtom::Permutation { length, .. } => {
                    let len = match length.evaluate(&store) {
                        Ok(v) => v,
                        Err(e) => {
                            assert(!atom_static_ok(atoms[i as int]));
                            proof {
                                if pinned_output(atoms, atoms.len() as int) is Some {
                                    reveal(pinned_value);
                                    reveal(pinned_step);
                                    lemma_pinned_prefix(atoms, i as int + 1, atoms.len() as int);
                                    assert(pinned_step(atoms[i as int], store@) is Some);
                                    assert(false);
                                }
                            }
                            return Err(e);
                        },
                    };
                    if len < 0 {
                        assert(!atom_static_ok(atoms[i as int]));
                        proof {
                            if pinned_output(atoms, atoms.len() as int) is Some {
                                reveal(pinned_value);
                                reveal(pinned_step);
                                lemma_pinned_prefix(atoms, i as int + 1, atoms.len() as int);
                                assert(pinned_step(atoms[i as int], store@) is Some);
                                assert(false);
                            }
                        }
                        return Err(SpecificationError::Any);
                    }
                    let ghost pre = out@;
                    let ghost rngs0 = rngs;
                    emit_permutation(&mut out, len);
                    proof {
                        lemma_tokens_within_extend(
                            tokens_of(pre),
                            rngs0,
                            tokens_of(out@),
                            1int,
                            len as int,
                        );
                        rngs = rngs0 + Seq::new(len as nat, |k: int| (1int, len as int));
                        assert(rngs0 + Seq::new(
                            (tokens_of(out@).len() - tokens_of(pre).len()) as nat,
                            |k: int| (1int, len as int),
                        ) =~= rngs);
                        assert(atom_resolved(atoms[i as int], d));
                        assert(!literal_failure(atoms[i as int]));
                        assert(defined_before(atoms, i + 1) =~= d);
                        if shape_static(atoms) {
                            assert(atom_shape_static(atoms[i as int]));
                            assert(atom_tokens(atoms[i as int]) == len);
                        }
                        if statically_valid(atoms) {
                            assert(atom_ranges(atoms[i as int]) =~= Seq::new(
                                len as nat,
                                |k: int| (1int, len as int),
                            ));
                            assert(rngs =~= static_ranges(atoms, i as int + 1));
                        }
                        if pinned_output(atoms, atoms.len() as int) is Some {
                            reveal(pinned_value);
                            reveal(pinned_step);
                            lemma_pinned_prefix(atoms, i as int + 1, atoms.len() as int);
                            let oe = pinned_output(atoms, i as int).unwrap();
                            let pe = pinned_step(atoms[i as int], oe.1).unwrap();
                            assert(pinned_value(length@, oe.1) == Some(len));
                            if len == 0 {
                                assert(out@ =~= oe.0 + pe.0);
                            } else {
                                assert(len == 1);
                                assert(out@ =~= oe.0 + pe.0);
                            }
                            assert(store@ == pe.1);
                        }
                    }
                },
                SpecificationAtom::NewLine => {
                    let ghost pre = out@;
                    out.push(10);
                    proof {
                        crate::text::lemma_counts_push(pre, 10);
                        assert(out@ =~= pre.push(10));
                        crate::text::lemma_tokens_append_newline(pre);
                        if statically_valid(atoms) {
                            assert(atom_ranges(atoms[i as int]) =~= Seq::<(int, int)>::empty());
                            assert(rngs =~= static_ranges(atoms, i as int + 1));
                        }
                        assert(atom_resolved(atoms[i as int], d));
                        assert(!literal_failure(atoms[i as int]));
                        assert(defined_before(atoms, i + 1) =~= d);
                        if pinned_output(atoms, atoms.len() as int) is Some {
                            reveal(pinned_value);
                            reveal(pinned_step);
                            lemma_pinned_prefix(atoms, i as int + 1, atoms.len() as int);
                            let oe = pinned_output(atoms, i as int).unwrap();
                            let pe = pinned_step(atoms[i as int], oe.1).unwrap();
                            assert(out@ =~= oe.0 + pe.0);
                            assert(store@ == pe.1);
                        }
                    }
                },
            }
            i = i + 1;
        }
        proof {
            assert(names_resolved(atoms));
            assert(!has_literal_failure(atoms));
            reveal(tokens_within);
            assert(forall|j: int|
                0 <= j < tokens_of(out@).len() ==> is_i64_literal(#[trigger] tokens_of(out@)[j]));
        }
        Ok(out)
    }
}

/// For one atom sequence whose emission counts are fixed in advance, any
/// two successful generations have the same shape: equal token counts and
/// equal newline counts, though the sampled token values may differ from
/// call to call.
pub proof fn lemma_generate_shape_deterministic(atoms: Seq<AtomModel>, a: Seq<u8>, b: Seq<u8>)
    requires
        shape_static(atoms),
        token_count(a) == shape_tokens(atoms, atoms.len() as int),
        newline_count(a) == shape_newlines(atoms, atoms.len() as int),
        token_count(b) == shape_tokens(atoms, atoms.len() as int),
        newline_count(b) == shape_newlines(atoms, atoms.len() as int),
    ensures
        token_count(a) == token_count(b),
        newline_count(a) == newline_count(b),
{
}

/// The sequence `1, 2, ..., n`.
pub open spec fn one_to(n: int) -> Seq<i64> {
    Seq::new(if n >= 0 {
        n as nat
    } else {
        0nat
    }, |k: int| (k + 1) as i64)
}

/// A uniformly random permutation of `1..=length`: the emitted values are
/// exactly `1..=length`, each once, in some order. A length of zero yields
/// no values.
pub fn random_permutation(length: i64) -> (r: Vec<i64>)
    requires
        0 <= length,
    ensures
        r@.len() == length,
        r@.to_multiset() == one_to(length as int).to_multiset(),
        forall|j: int| 0 <= j < r@.len() ==> 1 <= #[trigger] r@[j] <= length,
{
    let mut v: Vec<i64> = Vec::new();
    let mut k: i64 = 0;
    while k < length
        invariant
            0 <= k <= length,
            v@.len() == k,
            v@ == one_to(length as int).take(k as int),
        decreases length - k,
    {
        v.push(k + 1);
        assert(v@ =~= one_to(length as int).take(k + 1));
        k = k + 1;
    }
    assert(v@ =~= one_to(length as int));
    shuffle_i64(&mut v);
    proof {
        broadcast use vstd::seq_lib::group_to_multiset_ensures;

        assert forall|j: int| 0 <= j < v@.len() implies 1 <= #[trigger] v@[j] <= length by {
            assert(v@.contains(v@[j]));
            assert(v@.to_multiset().count(v@[j]) > 0);
            assert(one_to(length as int).contains(v@[j]));
        }
    }
    v
}

} // verus!
