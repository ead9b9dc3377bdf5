//! Catalogs of possible dimensions, and their reconciliation into one
//! canonically ordered catalog.
use indexmap::IndexMap;
use vstd::prelude::*;

verus! {

#[verifier::external_type_specification]
#[verifier::external_body]
#[verifier::reject_recursive_types(K)]
#[verifier::reject_recursive_types(V)]
#[verifier::reject_recursive_types(S)]
pub struct ExIndexMap<K, V, S>(IndexMap<K, V, S>);

/// One catalog entry, seen as values: a dimension's name and its allowed values.
pub type DimEntry = (Seq<char>, Seq<Seq<char>>);

/// The entries of a map, in insertion order.
pub uninterp spec fn entries_of(m: IndexMap<String, DimensionValues>) -> Seq<DimEntry>;

/// `m` with `(k, v)` inserted as an insertion-ordered map does it: an entry
/// already named `k` keeps its place and takes the value `v`; otherwise the
/// entry is appended.
pub open spec fn insert_entry(m: Seq<DimEntry>, k: Seq<char>, v: Seq<Seq<char>>) -> Seq<DimEntry> {
    if exists|i: int| 0 <= i < m.len() && (#[trigger] m[i]).0 == k {
        let i = choose|i: int| 0 <= i < m.len() && (#[trigger] m[i]).0 == k;
        m.update(i, (k, v))
    } else {
        m.push((k, v))
    }
}

/// No two entries share a name.
pub open spec fn unique_names(m: Seq<DimEntry>) -> bool {
    forall|i: int, j: int| 0 <= i < j < m.len() ==> (#[trigger] m[i]).0 != (#[trigger] m[j]).0
}

/// Relies on `IndexMap::new`: an empty map.
#[verifier::external_body]
fn map_new() -> (r: IndexMap<String, DimensionValues>)
    ensures
        entries_of(r) == Seq::<DimEntry>::empty(),
{
    IndexMap::new()
}

/// Relies on `IndexMap::len`: the number of entries.
#[verifier::external_body]
fn map_len(m: &IndexMap<String, DimensionValues>) -> (r: usize)
    ensures
        r == entries_of(*m).len(),
{
    m.len()
}

/// Relies on `IndexMap::get_index`: the entry at position `i` (present, as
/// `requires` keeps `i` below the length).
#[verifier::external_body]
fn map_entry(m: &IndexMap<String, DimensionValues>, i: usize) -> (r: (&String, &DimensionValues))
    requires
        i < entries_of(*m).len(),
    ensures
        r.0@ == entries_of(*m)[i as int].0,
        r.1@ == entries_of(*m)[i as int].1,
{
    m.get_index(i).unwrap()
}

/// Relies on `IndexMap::insert`: an existing key keeps its place and takes the
/// new value, a new key is appended.
#[verifier::external_body]
fn map_insert(m: &mut IndexMap<String, DimensionValues>, k: String, v: DimensionValues)
    ensures
        entries_of(*final(m)) == insert_entry(entries_of(*old(m)), k@, v@),
{
    m.insert(k, v);
}

/// Holds the actual values that are possible within a dimension.
#[derive(Clone, Debug)]
pub struct DimensionValues(pub Vec<String>);

impl Default for DimensionValues {
    fn default() -> (r: DimensionValues)
        ensures
            r@ == Seq::<Seq<char>>::empty(),
    {
        let r = DimensionValues(Vec::new());
        assert(r@ =~= Seq::<Seq<char>>::empty());
        r
    }
}

impl View for DimensionValues {
    type V = Seq<Seq<char>>;

    open spec fn view(&self) -> Seq<Seq<char>> {
        self.0@.map_values(|s: String| s@)
    }
}

impl DimensionValues {
    /// A copy holding the same values.
    pub fn duplicate(&self) -> (r: DimensionValues)
        ensures
            r@ == self@,
    {
        let mut out: Vec<String> = Vec::with_capacity(self.0.len());
        let mut i: usize = 0;
        while i < self.0.len()
            invariant
                i <= self.0@.len(),
                out@.len() == i,
                forall|j: int| 0 <= j < i ==> (#[trigger] out@[j])@ == self.0@[j]@,
            decreases self.0@.len() - i,
        {
            out.push(self.0[i].clone());
            i = i + 1;
        }
        let r = DimensionValues(out);
        assert(r@ =~= self@);
        r
    }
}

impl PartialEq for DimensionValues {
    fn eq(&self, other: &DimensionValues) -> (r: bool) {
        if self.0.len() != other.0.len() {
            assert(self@.len() != other@.len());
            return false;
        }
        let mut i: usize = 0;
        while i < self.0.len()
            invariant
                i <= self.0@.len(),
                self.0@.len() == other.0@.len(),
                forall|j: int| 0 <= j < i ==> (#[trigger] self.0@[j])@ == other.0@[j]@,
            decreases self.0@.len() - i,
        {
            if self.0[i] != other.0[i] {
                assert(self@[i as int] != other@[i as int]);
                return false;
            }
            i = i + 1;
        }
        assert(self@ =~= other@);
        true
    }
}

impl vstd::std_specs::cmp::PartialEqSpecImpl for DimensionValues {
    open spec fn obeys_eq_spec() -> bool {
        true
    }

    open spec fn eq_spec(&self, other: &DimensionValues) -> bool {
        self@ == other@
    }
}

impl Eq for DimensionValues {
}

/// The collection of all possible dimensions that a value **could** vary by,
/// in insertion order.
#[derive(Debug)]
pub struct PossibleDimensions(IndexMap<String, DimensionValues>);

impl View for PossibleDimensions {
    type V = Seq<DimEntry>;

    closed spec fn view(&self) -> Seq<DimEntry> {
        entries_of(self.0)
    }
}

impl Default for PossibleDimensions {
    fn default() -> (r: PossibleDimensions)
        ensures
            r@ == Seq::<DimEntry>::empty(),
    {
        PossibleDimensions(map_new())
    }
}

impl PossibleDimensions {
    /// A catalog never holds two entries of one name.
    #[verifier::type_invariant]
    spec fn names_unique(&self) -> bool {
        unique_names(entries_of(self.0))
    }

    /// Adds (or, for a name already present, redefines in place) a dimension.
    pub fn add_dimension(self, name: String, values: Vec<String>) -> (r: PossibleDimensions)
        ensures
            r@ == insert_entry(self@, name@, DimensionValues(values)@),
            unique_names(r@),
    {
        proof {
            use_type_invariant(&self);
            lemma_insert_keeps_unique(self@, name@, DimensionValues(values)@);
        }
        let mut map = self.0;
        map_insert(&mut map, name, DimensionValues(values));
        PossibleDimensions(map)
    }

    /// The number of dimensions.
    pub fn len(&self) -> (r: usize)
        ensures
            r == self@.len(),
    {
        map_len(&self.0)
    }
}

impl PartialEq for PossibleDimensions {
    /// Equal when both hold the same entries in the same order.
    fn eq(&self, other: &PossibleDimensions) -> (r: bool) {
        let n = map_len(&self.0);
        if n != map_len(&other.0) {
            return false;
        }
        let mut i: usize = 0;
        while i < n
            invariant
                i <= n,
                n == self@.len(),
                n == other@.len(),
                forall|j: int| 0 <= j < i ==> #[trigger] self@[j] == other@[j],
            decreases n - i,
        {
            let (name, values) = map_entry(&self.0, i);
            let (other_name, other_values) = map_entry(&other.0, i);
            if !name.eq(other_name) || !values.eq(other_values) {
                assert(self@[i as int] != other@[i as int]);
                return false;
            }
            assert(self@[i as int] == other@[i as int]);
            i = i + 1;
        }
        assert(self@ =~= other@);
        true
    }
}

impl vstd::std_specs::cmp::PartialEqSpecImpl for PossibleDimensions {
    open spec fn obeys_eq_spec() -> bool {
        true
    }

    open spec fn eq_spec(&self, other: &PossibleDimensions) -> bool {
        self@ == other@
    }
}

impl Eq for PossibleDimensions {
}

/// Raised when one dimension name is bound to two different value domains.
#[derive(Debug)]
pub struct ConflictError {
    /// The name of the dimension in conflict.
    pub name: String,
}

/// The values `m` holds under the name `k`, if any.
pub open spec fn lookup(m: Seq<DimEntry>, k: Seq<char>) -> Option<Seq<Seq<char>>> {
    if exists|i: int| 0 <= i < m.len() && (#[trigger] m[i]).0 == k {
        let i = choose|i: int| 0 <= i < m.len() && (#[trigger] m[i]).0 == k;
        Some(m[i].1)
    } else {
        None
    }
}

/// Relies on `IndexMap::get`: the value stored under the key, if any.
#[verifier::external_body]
fn map_get<'a>(m: &'a IndexMap<String, DimensionValues>, k: &String) -> (r: Option<
    &'a DimensionValues,
>)
    ensures
        match r {
            Some(v) => lookup(entries_of(*m), k@) == Some(v@),
            None => lookup(entries_of(*m), k@) == None::<Seq<Seq<char>>>,
        },
{
    m.get(k)
}

/// Lexicographic order on character sequences (code point by code point, a
/// proper prefix first).
pub open spec fn name_le(a: Seq<char>, b: Seq<char>) -> bool
    decreases a.len(),
{
    if a.len() == 0 {
        true
    } else if b.len() == 0 {
        false
    } else if a[0] != b[0] {
        a[0] < b[0]
    } else {
        name_le(a.drop_first(), b.drop_first())
    }
}

/// Relies on `<String as PartialOrd>::le`: strings are ordered lexicographically
/// by their UTF-8 bytes, which orders code points by their values.
#[verifier::external_body]
fn string_le(a: &String, b: &String) -> (r: bool)
    ensures
        r == name_le(a@, b@),
{
    a <= b
}

/// Whether, with `x` and `y` both at the head of the walk, `x` comes first:
/// the smaller cardinality, and on equal cardinality the smaller name.
pub open spec fn left_first(x: DimEntry, y: DimEntry) -> bool {
    if x.1.len() == y.1.len() {
        name_le(x.0, y.0)
    } else {
        x.1.len() < y.1.len()
    }
}

/// `x` strictly precedes `y` in the canonical order: by cardinality, then by name.
pub open spec fn key_lt(x: DimEntry, y: DimEntry) -> bool {
    x.1.len() < y.1.len() || (x.1.len() == y.1.len() && name_le(x.0, y.0) && x.0 != y.0)
}

/// The entries are in strictly ascending canonical order.
pub open spec fn canonically_sorted(s: Seq<DimEntry>) -> bool {
    forall|i: int, j: int| 0 <= i < j < s.len() ==> key_lt(#[trigger] s[i], #[trigger] s[j])
}

/// `a` and `b` both define the dimension `n`, with different values.
pub open spec fn conflict_on(a: Seq<DimEntry>, b: Seq<DimEntry>, n: Seq<char>) -> bool {
    exists|i: int, j: int|
        0 <= i < a.len() && 0 <= j < b.len() && (#[trigger] a[i]).0 == n && (#[trigger] b[j]).0
            == n && a[i].1 != b[j].1
}

/// Some dimension is defined by both `a` and `b`, with different values.
pub open spec fn some_conflict(a: Seq<DimEntry>, b: Seq<DimEntry>) -> bool {
    exists|i: int, j: int|
        0 <= i < a.len() && 0 <= j < b.len() && (#[trigger] a[i]).0 == (#[trigger] b[j]).0
            && a[i].1 != b[j].1
}

/// `c` holds exactly the entries of `a` and of `b`.
pub open spec fn is_union(c: Seq<DimEntry>, a: Seq<DimEntry>, b: Seq<DimEntry>) -> bool {
    forall|e: DimEntry| #[trigger] c.contains(e) <==> a.contains(e) || b.contains(e)
}

/// `out` after emitting `x`: unchanged when it already holds `x`, `x` appended
/// when it holds nothing of that name, and a conflict on the name otherwise.
pub open spec fn add_entry(out: Seq<DimEntry>, x: DimEntry) -> Result<Seq<DimEntry>, Seq<char>> {
    match lookup(out, x.0) {
        None => Ok(out.push(x)),
        Some(v) => if v == x.1 {
            Ok(out)
        } else {
            Err(x.0)
        },
    }
}

/// Whether the walk takes the head of `a` next (rather than that of `b`).
pub open spec fn takes_left(a: Seq<DimEntry>, b: Seq<DimEntry>) -> bool {
    b.len() == 0 || (a.len() > 0 && (a[0].0 == b[0].0 || left_first(a[0], b[0])))
}

/// Whether the heads of `a` and `b` are both present and share a name.
pub open spec fn heads_meet(a: Seq<DimEntry>, b: Seq<DimEntry>) -> bool {
    a.len() > 0 && b.len() > 0 && a[0].0 == b[0].0
}

/// The catalog that a merge walk over `a` and `b` builds on top of `out`, or the
/// name of the first dimension found bound to two different value domains.
pub open spec fn merge_from(out: Seq<DimEntry>, a: Seq<DimEntry>, b: Seq<DimEntry>) -> Result<
    Seq<DimEntry>,
    Seq<char>,
>
    decreases a.len() + b.len(),
{
    if a.len() == 0 && b.len() == 0 {
        Ok(out)
    } else if heads_meet(a, b) && a[0].1 != b[0].1 {
        Err(a[0].0)
    } else {
        let x = if takes_left(a, b) {
            a[0]
        } else {
            b[0]
        };
        let a2 = if takes_left(a, b) {
            a.drop_first()
        } else {
            a
        };
        let b2 = if heads_meet(a, b) || !takes_left(a, b) {
            b.drop_first()
        } else {
            b
        };
        match add_entry(out, x) {
            Ok(o) => merge_from(o, a2, b2),
            Err(e) => Err(e),
        }
    }
}

/// The catalog that merging `a` with `b` builds, or the conflicting name.
pub open spec fn merged(a: Seq<DimEntry>, b: Seq<DimEntry>) -> Result<Seq<DimEntry>, Seq<char>> {
    merge_from(Seq::empty(), a, b)
}

/// Merges two catalogs in one walk over both, ordered by cardinality and then
/// name, keeping one copy of each dimension that both define alike.
///
/// Fails with the name of a dimension that the two define with different
/// values, exactly when there is one; nothing is built then.
pub fn combine_dimensions(lhs: &PossibleDimensions, rhs: &PossibleDimensions) -> (r: Result<
    PossibleDimensions,
    ConflictError,
>)
    ensures
        match r {
            Ok(c) => merged(lhs@, rhs@) == Ok::<Seq<DimEntry>, Seq<char>>(c@),
            Err(e) => merged(lhs@, rhs@) == Err::<Seq<DimEntry>, Seq<char>>(e.name@),
        },
        r is Err <==> some_conflict(lhs@, rhs@),
        r matches Err(e) ==> conflict_on(lhs@, rhs@, e.name@),
        r matches Ok(c) ==> is_union(c@, lhs@, rhs@) && unique_names(c@),
        r matches Ok(c) ==> (canonically_sorted(lhs@) && canonically_sorted(rhs@)
            ==> canonically_sorted(c@)),
        lhs@ == rhs@ ==> (r matches Ok(c) && c@ == lhs@),
{
    proof {
        use_type_invariant(lhs);
        use_type_invariant(rhs);
        lemma_merge_conflict(lhs@, rhs@);
        lemma_merge_union(lhs@, rhs@);
        if canonically_sorted(lhs@) && canonically_sorted(rhs@) {
            lemma_merge_sorted(lhs@, rhs@);
        }
        if lhs@ == rhs@ {
            lemma_merge_self(lhs@);
        }
    }
    walk_catalogs(lhs, rhs)
}

/// The merge walk itself.
fn walk_catalogs(lhs: &PossibleDimensions, rhs: &PossibleDimensions) -> (r: Result<
    PossibleDimensions,
    ConflictError,
>)
    ensures
        match r {
            Ok(c) => merged(lhs@, rhs@) == Ok::<Seq<DimEntry>, Seq<char>>(c@),
            Err(e) => merged(lhs@, rhs@) == Err::<Seq<DimEntry>, Seq<char>>(e.name@),
        },
{
    let ghost a = lhs@;
    let ghost b = rhs@;
    let mut out = map_new();
    let n = map_len(&lhs.0);
    let m = map_len(&rhs.0);
    let mut i: usize = 0;
    let mut j: usize = 0;
    assert(a.skip(0) =~= a);
    assert(b.skip(0) =~= b);
    while i < n || j < m
        invariant
            a == lhs@,
            b == rhs@,
            n == a.len(),
            m == b.len(),
            i <= n,
            j <= m,
            unique_names(entries_of(out)),
            merge_from(entries_of(out), a.skip(i as int), b.skip(j as int)) == merged(a, b),
        decreases (n - i) + (m - j),
    {
        let ghost sa = a.skip(i as int);
        let ghost sb = b.skip(j as int);
        assert(sa.len() > 0 ==> sa.drop_first() =~= a.skip(i + 1));
        assert(sb.len() > 0 ==> sb.drop_first() =~= b.skip(j + 1));
        assert(sa.len() > 0 ==> sa[0] == a[i as int]);
        assert(sb.len() > 0 ==> sb[0] == b[j as int]);
        let mut take_left = j == m;
        let mut meet = false;
        if i < n && j < m {
            let (l_name, l_values) = map_entry(&lhs.0, i);
            let (r_name, r_values) = map_entry(&rhs.0, j);
            if l_name.eq(r_name) {
                if !l_values.eq(r_values) {
                    return Err(ConflictError { name: l_name.clone() });
                }
                meet = true;
                take_left = true;
            } else if l_values.0.len() == r_values.0.len() {
                take_left = string_le(l_name, r_name);
            } else {
                take_left = l_values.0.len() < r_values.0.len();
            }
        }
        assert(take_left == takes_left(sa, sb));
        assert(meet == heads_meet(sa, sb));
        let (name, values) = if take_left {
            map_entry(&lhs.0, i)
        } else {
            map_entry(&rhs.0, j)
        };
        let ghost x: DimEntry = (name@, values@);
        assert(x == if take_left {
            sa[0]
        } else {
            sb[0]
        });
        match map_get(&out, name) {
            Some(v) => {
                if !v.eq(values) {
                    assert(add_entry(entries_of(out), x) == Err::<Seq<DimEntry>, Seq<char>>(x.0));
                    assert(merge_from(entries_of(out), sa, sb) == Err::<Seq<DimEntry>, Seq<char>>(
                        x.0,
                    ));
                    return Err(ConflictError { name: name.clone() });
                }
            },
            None => {
                proof {
                    lemma_insert_keeps_unique(entries_of(out), x.0, x.1);
                }
                map_insert(&mut out, name.clone(), values.duplicate());
            },
        }
        if take_left {
            i = i + 1;
        }
        if meet || !take_left {
            j = j + 1;
        }
    }
    proof {
        assert(a.skip(n as int).len() == 0);
        assert(b.skip(m as int).len() == 0);
    }
    Ok(PossibleDimensions(out))
}

proof fn lemma_from_commutes(out: Seq<DimEntry>, a: Seq<DimEntry>, b: Seq<DimEntry>)
    ensures
        merge_from(out, a, b) == merge_from(out, b, a),
    decreases a.len() + b.len(),
{
    if a.len() == 0 && b.len() == 0 {
        assert(a =~= b);
    } else if heads_meet(a, b) {
        if a[0].1 == b[0].1 {
            assert(a[0] == b[0]);
            if let Ok(o) = add_entry(out, a[0]) {
                lemma_from_commutes(o, a.drop_first(), b.drop_first());
            }
        }
    } else {
        if a.len() > 0 && b.len() > 0 && a[0].1.len() == b[0].1.len() {
            lemma_name_le_total(a[0].0, b[0].0);
        }
        if takes_left(a, b) {
            assert(!takes_left(b, a));
            if let Ok(o) = add_entry(out, a[0]) {
                lemma_from_commutes(o, a.drop_first(), b);
            }
        } else {
            assert(takes_left(b, a));
            if let Ok(o) = add_entry(out, b[0]) {
                lemma_from_commutes(o, a, b.drop_first());
            }
        }
    }
}

/// Merging is symmetric: `merge(a, b)` and `merge(b, a)` build the same catalog,
/// entries and order alike, or report the same conflicting name.
pub proof fn lemma_merge_commutes(a: Seq<DimEntry>, b: Seq<DimEntry>)
    ensures
        merged(a, b) == merged(b, a),
{
    lemma_from_commutes(Seq::empty(), a, b);
}

proof fn lemma_from_self(p: Seq<DimEntry>, s: Seq<DimEntry>)
    requires
        unique_names(p + s),
    ensures
        merge_from(p, s, s) == Ok::<Seq<DimEntry>, Seq<char>>(p + s),
    decreases s.len(),
{
    if s.len() == 0 {
        assert(p + s =~= p);
    } else {
        let x = s[0];
        assert((p + s)[p.len() as int] == x);
        assert forall|i: int| 0 <= i < p.len() implies (#[trigger] p[i]).0 != x.0 by {
            assert((p + s)[i] == p[i]);
        }
        assert(add_entry(p, x) == Ok::<Seq<DimEntry>, Seq<char>>(p.push(x)));
        assert(p.push(x) + s.drop_first() =~= p + s);
        lemma_from_self(p.push(x), s.drop_first());
    }
}

/// Merging a catalog with an identical copy of itself succeeds and gives back
/// the same catalog.
pub proof fn lemma_merge_self(a: Seq<DimEntry>)
    requires
        unique_names(a),
    ensures
        merged(a, a) == Ok::<Seq<DimEntry>, Seq<char>>(a),
{
    assert(Seq::<DimEntry>::empty() + a =~= a);
    lemma_from_self(Seq::empty(), a);
}

proof fn lemma_insert_keeps_unique(m: Seq<DimEntry>, k: Seq<char>, v: Seq<Seq<char>>)
    requires
        unique_names(m),
    ensures
        unique_names(insert_entry(m, k, v)),
{
    let r = insert_entry(m, k, v);
    if exists|i: int| 0 <= i < m.len() && (#[trigger] m[i]).0 == k {
        let i = choose|i: int| 0 <= i < m.len() && (#[trigger] m[i]).0 == k;
        assert forall|p: int, q: int| 0 <= p < q < r.len() implies (#[trigger] r[p]).0 != (
        #[trigger] r[q]).0 by {
            assert(m[p].0 == r[p].0);
            assert(m[q].0 == r[q].0);
        }
    } else {
        assert forall|p: int, q: int| 0 <= p < q < r.len() implies (#[trigger] r[p]).0 != (
        #[trigger] r[q]).0 by {
            if q == m.len() {
                assert(m[p].0 != k);
            }
        }
    }
}

proof fn lemma_name_le_total(x: Seq<char>, y: Seq<char>)
    requires
        x != y,
    ensures
        name_le(x, y) != name_le(y, x),
    decreases x.len(),
{
    if x.len() > 0 && y.len() > 0 && x[0] == y[0] {
        assert(x =~= seq![x[0]] + x.drop_first());
        assert(y =~= seq![y[0]] + y.drop_first());
        lemma_name_le_total(x.drop_first(), y.drop_first());
    } else if x.len() == 0 && y.len() == 0 {
        assert(x =~= y);
    }
}


proof fn lemma_contains_split(s: Seq<DimEntry>)
    requires
        s.len() > 0,
    ensures
        forall|e: DimEntry| #[trigger] s.contains(e) <==> (e == s[0] || s.drop_first().contains(e)),
{
    assert forall|e: DimEntry| #[trigger] s.contains(e) <==> (e == s[0] || s.drop_first().contains(
        e,
    )) by {
        if s.contains(e) {
            let k = choose|k: int| 0 <= k < s.len() && s[k] == e;
            if k > 0 {
                assert(s.drop_first()[k - 1] == e);
            }
        }
        if s.drop_first().contains(e) {
            let k = choose|k: int| 0 <= k < s.len() - 1 && s.drop_first()[k] == e;
            assert(s[k + 1] == e);
        }
        if e == s[0] {
            assert(s[0] == e);
        }
    }
}

proof fn lemma_add_entry(out: Seq<DimEntry>, x: DimEntry)
    requires
        unique_names(out),
    ensures
        match add_entry(out, x) {
            Ok(o) => unique_names(o) && forall|e: DimEntry| #[trigger]
                o.contains(e) <==> (out.contains(e) || e == x),
            Err(n) => n == x.0 && exists|k: int|
                0 <= k < out.len() && (#[trigger] out[k]).0 == x.0 && out[k].1 != x.1,
        },
{
    if exists|i: int| 0 <= i < out.len() && (#[trigger] out[i]).0 == x.0 {
        let i = choose|i: int| 0 <= i < out.len() && (#[trigger] out[i]).0 == x.0;
        if out[i].1 == x.1 {
            assert(out[i] == x);
            assert forall|e: DimEntry| #[trigger] out.contains(e) <==> (out.contains(e) || e == x) by {
                if e == x {
                    assert(out[i] == e);
                }
            }
        }
    } else {
        lemma_insert_keeps_unique(out, x.0, x.1);
        let o = out.push(x);
        assert forall|e: DimEntry| #[trigger] o.contains(e) <==> (out.contains(e) || e == x) by {
            if o.contains(e) {
                let k = choose|k: int| 0 <= k < o.len() && o[k] == e;
                if k < out.len() {
                    assert(out[k] == e);
                }
            }
            if out.contains(e) {
                let k = choose|k: int| 0 <= k < out.len() && out[k] == e;
                assert(o[k] == e);
            }
            if e == x {
                assert(o[out.len() as int] == e);
            }
        }
    }
}

proof fn lemma_from_union(out: Seq<DimEntry>, a: Seq<DimEntry>, b: Seq<DimEntry>)
    requires
        unique_names(out),
    ensures
        merge_from(out, a, b) matches Ok(c) ==> unique_names(c) && forall|e: DimEntry| #[trigger]
            c.contains(e) <==> (out.contains(e) || a.contains(e) || b.contains(e)),
    decreases a.len() + b.len(),
{
    if a.len() == 0 && b.len() == 0 {
    } else if heads_meet(a, b) && a[0].1 != b[0].1 {
    } else {
        if a.len() > 0 {
            lemma_contains_split(a);
        }
        if b.len() > 0 {
            lemma_contains_split(b);
        }
        if heads_meet(a, b) {
            assert(a[0] == b[0]);
        }
        let x = if takes_left(a, b) {
            a[0]
        } else {
            b[0]
        };
        let a2 = if takes_left(a, b) {
            a.drop_first()
        } else {
            a
        };
        let b2 = if heads_meet(a, b) || !takes_left(a, b) {
            b.drop_first()
        } else {
            b
        };
        lemma_add_entry(out, x);
        if let Ok(o) = add_entry(out, x) {
            lemma_from_union(o, a2, b2);
        }
    }
}

/// `p` and `q` both name `n` with different values, `p` is in `out`, `a` or `b`,
/// and `q` is in `a` or `b`.
pub open spec fn conflict_witness(
    out: Seq<DimEntry>,
    a: Seq<DimEntry>,
    b: Seq<DimEntry>,
    n: Seq<char>,
    p: DimEntry,
    q: DimEntry,
) -> bool {
    &&& out.contains(p) || a.contains(p) || b.contains(p)
    &&& a.contains(q) || b.contains(q)
    &&& p.0 == n && q.0 == n && p.1 != q.1
}

proof fn lemma_from_conflict(out: Seq<DimEntry>, a: Seq<DimEntry>, b: Seq<DimEntry>)
    requires
        unique_names(out),
    ensures
        merge_from(out, a, b) is Err ==> exists|p: DimEntry, q: DimEntry|
            #[trigger] conflict_witness(out, a, b, merge_from(out, a, b)->Err_0, p, q),
    decreases a.len() + b.len(),
{
    if a.len() == 0 && b.len() == 0 {
    } else if heads_meet(a, b) && a[0].1 != b[0].1 {
        assert(a.contains(a[0]) && b.contains(b[0]) && b[0].0 == a[0].0);
        assert(conflict_witness(out, a, b, a[0].0, a[0], b[0]));
        assert(merge_from(out, a, b) == Err::<Seq<DimEntry>, Seq<char>>(a[0].0));
        assert(merge_from(out, a, b)->Err_0 == a[0].0);
        assert(exists|p: DimEntry, q: DimEntry|
            #[trigger] conflict_witness(out, a, b, merge_from(out, a, b)->Err_0, p, q));
    } else {
        if a.len() > 0 {
            lemma_contains_split(a);
            assert(a.contains(a[0]));
        }
        if b.len() > 0 {
            lemma_contains_split(b);
            assert(b.contains(b[0]));
        }
        let x = if takes_left(a, b) {
            a[0]
        } else {
            b[0]
        };
        let a2 = if takes_left(a, b) {
            a.drop_first()
        } else {
            a
        };
        let b2 = if heads_meet(a, b) || !takes_left(a, b) {
            b.drop_first()
        } else {
            b
        };
        lemma_add_entry(out, x);
        assert(merge_from(out, a, b) == match add_entry(out, x) {
            Ok(o) => merge_from(o, a2, b2),
            Err(e) => Err(e),
        });
        match add_entry(out, x) {
            Err(n) => {
                let k = choose|k: int|
                    0 <= k < out.len() && (#[trigger] out[k]).0 == x.0 && out[k].1 != x.1;
                assert(out.contains(out[k]));
                assert(a.contains(x) || b.contains(x));
                assert(conflict_witness(out, a, b, n, out[k], x));
            },
            Ok(o) => {
                lemma_from_conflict(o, a2, b2);
                if let Err(n) = merge_from(o, a2, b2) {
                    let (p, q) = choose|p: DimEntry, q: DimEntry|
                        #[trigger] conflict_witness(o, a2, b2, n, p, q);
                    assert(o.contains(p) ==> out.contains(p) || p == x);
                    assert(a2.contains(p) ==> a.contains(p));
                    assert(b2.contains(p) ==> b.contains(p));
                    assert(a2.contains(q) ==> a.contains(q));
                    assert(b2.contains(q) ==> b.contains(q));
                    assert(conflict_witness(out, a, b, n, p, q));
                }
            },
        }
    }
}

/// Merging two catalogs, each with unique names, fails exactly when some
/// dimension is in both with different values, and then names such a dimension.
pub proof fn lemma_merge_conflict(a: Seq<DimEntry>, b: Seq<DimEntry>)
    requires
        unique_names(a),
        unique_names(b),
    ensures
        merged(a, b) is Err <==> some_conflict(a, b),
        merged(a, b) matches Err(n) ==> conflict_on(a, b, n),
{
    lemma_from_conflict(Seq::empty(), a, b);
    lemma_from_union(Seq::empty(), a, b);
    if merged(a, b) is Err {
        let n = merged(a, b)->Err_0;
        let (p, q) = choose|p: DimEntry, q: DimEntry|
            #[trigger] conflict_witness(Seq::empty(), a, b, n, p, q);
        assert(!Seq::<DimEntry>::empty().contains(p));
        if a.contains(p) && b.contains(q) {
            let i = choose|i: int| 0 <= i < a.len() && a[i] == p;
            let j = choose|j: int| 0 <= j < b.len() && b[j] == q;
            assert(conflict_on(a, b, n));
        } else if b.contains(p) && a.contains(q) {
            let i = choose|i: int| 0 <= i < a.len() && a[i] == q;
            let j = choose|j: int| 0 <= j < b.len() && b[j] == p;
            assert(conflict_on(a, b, n));
        } else if a.contains(p) {
            let i = choose|i: int| 0 <= i < a.len() && a[i] == p;
            let k = choose|k: int| 0 <= k < a.len() && a[k] == q;
            assert(i != k);
            if i < k {
                assert(a[i].0 != a[k].0);
            } else {
                assert(a[k].0 != a[i].0);
            }
        } else {
            let i = choose|i: int| 0 <= i < b.len() && b[i] == p;
            let k = choose|k: int| 0 <= k < b.len() && b[k] == q;
            assert(i != k);
            if i < k {
                assert(b[i].0 != b[k].0);
            } else {
                assert(b[k].0 != b[i].0);
            }
        }
        let (i, j) = choose|i: int, j: int|
            0 <= i < a.len() && 0 <= j < b.len() && (#[trigger] a[i]).0 == n && (#[trigger] b[j]).0
                == n && a[i].1 != b[j].1;
        assert(some_conflict(a, b));
    }
    if let Ok(c) = merged(a, b) {
        if some_conflict(a, b) {
            let (i, j) = choose|i: int, j: int|
                0 <= i < a.len() && 0 <= j < b.len() && (#[trigger] a[i]).0 == (#[trigger] b[j]).0
                    && a[i].1 != b[j].1;
            assert(a.contains(a[i]));
            assert(b.contains(b[j]));
            assert(c.contains(a[i]) && c.contains(b[j]));
            let k1 = choose|k: int| 0 <= k < c.len() && c[k] == a[i];
            let k2 = choose|k: int| 0 <= k < c.len() && c[k] == b[j];
            if k1 < k2 {
                assert(c[k1].0 != c[k2].0);
            } else if k2 < k1 {
                assert(c[k2].0 != c[k1].0);
            }
        }
    }
}

/// A successful merge holds exactly the entries of both catalogs, each name once.
pub proof fn lemma_merge_union(a: Seq<DimEntry>, b: Seq<DimEntry>)
    ensures
        merged(a, b) matches Ok(c) ==> is_union(c, a, b) && unique_names(c),
{
    lemma_from_union(Seq::empty(), a, b);
}

/// `x` precedes `y` in the canonical order, or has the same cardinality and name.
pub open spec fn key_le(x: DimEntry, y: DimEntry) -> bool {
    key_lt(x, y) || (x.1.len() == y.1.len() && x.0 == y.0)
}

proof fn lemma_name_le_trans(x: Seq<char>, y: Seq<char>, z: Seq<char>)
    requires
        name_le(x, y),
        name_le(y, z),
    ensures
        name_le(x, z),
    decreases x.len(),
{
    if x.len() > 0 && y.len() > 0 && z.len() > 0 && x[0] == y[0] && y[0] == z[0] {
        lemma_name_le_trans(x.drop_first(), y.drop_first(), z.drop_first());
    }
}

proof fn lemma_key_trans(p: DimEntry, q: DimEntry, r: DimEntry)
    ensures
        key_le(p, q) && key_le(q, r) ==> key_le(p, r),
        key_lt(p, q) && key_le(q, r) ==> key_lt(p, r),
        key_le(p, q) && key_lt(q, r) ==> key_lt(p, r),
{
    if p.0 != q.0 {
        lemma_name_le_total(p.0, q.0);
    }
    if q.0 != r.0 {
        lemma_name_le_total(q.0, r.0);
    }
    if p.0 != r.0 {
        lemma_name_le_total(p.0, r.0);
    }
    if name_le(p.0, q.0) && name_le(q.0, r.0) {
        lemma_name_le_trans(p.0, q.0, r.0);
    }
}

/// Every entry of `out` comes no later than every entry of `s`.
pub open spec fn all_before(out: Seq<DimEntry>, s: Seq<DimEntry>) -> bool {
    forall|k: int, i: int| 0 <= k < out.len() && 0 <= i < s.len() ==> key_le(#[trigger] out[k], #[trigger] s[i])
}

proof fn lemma_from_sorted(out: Seq<DimEntry>, a: Seq<DimEntry>, b: Seq<DimEntry>)
    requires
        canonically_sorted(out),
        canonically_sorted(a),
        canonically_sorted(b),
        all_before(out, a),
        all_before(out, b),
    ensures
        merge_from(out, a, b) matches Ok(c) ==> canonically_sorted(c),
    decreases a.len() + b.len(),
{
    if a.len() == 0 && b.len() == 0 {
    } else if heads_meet(a, b) && a[0].1 != b[0].1 {
    } else {
        let x = if takes_left(a, b) {
            a[0]
        } else {
            b[0]
        };
        let a2 = if takes_left(a, b) {
            a.drop_first()
        } else {
            a
        };
        let b2 = if heads_meet(a, b) || !takes_left(a, b) {
            b.drop_first()
        } else {
            b
        };
        if heads_meet(a, b) {
            assert(a[0] == b[0]);
        } else if a.len() > 0 && b.len() > 0 && a[0].1.len() == b[0].1.len() {
            lemma_name_le_total(a[0].0, b[0].0);
        }
        // `x` comes strictly before everything that is left.
        assert forall|i: int| 0 <= i < a2.len() implies key_lt(x, #[trigger] a2[i]) by {
            if takes_left(a, b) {
                assert(a2[i] == a[i + 1]);
            } else {
                lemma_key_trans(x, a[0], a[i]);
                if i > 0 {
                    assert(key_lt(a[0], a[i]));
                }
            }
        }
        assert forall|i: int| 0 <= i < b2.len() implies key_lt(x, #[trigger] b2[i]) by {
            if heads_meet(a, b) || !takes_left(a, b) {
                assert(b2[i] == b[i + 1]);
            } else {
                lemma_key_trans(x, b[0], b[i]);
                if i > 0 {
                    assert(key_lt(b[0], b[i]));
                }
            }
        }
        assert forall|k: int| 0 <= k < out.len() implies key_le(#[trigger] out[k], x) by {
            if takes_left(a, b) {
                assert(key_le(out[k], a[0]));
            } else {
                assert(key_le(out[k], b[0]));
            }
        }
        if let Ok(o) = add_entry(out, x) {
            if lookup(out, x.0) is None {
                assert forall|k: int| 0 <= k < out.len() implies key_lt(#[trigger] out[k], x) by {
                    assert(key_le(out[k], x));
                    assert(out[k].0 != x.0);
                }
                assert forall|p: int, q: int| 0 <= p < q < o.len() implies key_lt(
                    #[trigger] o[p],
                    #[trigger] o[q],
                ) by {
                    if q == out.len() {
                        assert(o[p] == out[p]);
                    } else {
                        assert(o[p] == out[p] && o[q] == out[q]);
                    }
                }
            }
            assert forall|k: int, i: int| 0 <= k < o.len() && 0 <= i < a2.len() implies key_le(
                #[trigger] o[k],
                #[trigger] a2[i],
            ) by {
                if k < out.len() {
                    assert(o[k] == out[k]);
                    lemma_key_trans(out[k], x, a2[i]);
                }
            }
            assert forall|k: int, i: int| 0 <= k < o.len() && 0 <= i < b2.len() implies key_le(
                #[trigger] o[k],
                #[trigger] b2[i],
            ) by {
                if k < out.len() {
                    assert(o[k] == out[k]);
                    lemma_key_trans(out[k], x, b2[i]);
                }
            }
            assert(canonically_sorted(a2)) by {
                assert forall|p: int, q: int| 0 <= p < q < a2.len() implies key_lt(
                    #[trigger] a2[p],
                    #[trigger] a2[q],
                ) by {
                    if takes_left(a, b) {
                        assert(a2[p] == a[p + 1] && a2[q] == a[q + 1]);
                    }
                }
            }
            assert(canonically_sorted(b2)) by {
                assert forall|p: int, q: int| 0 <= p < q < b2.len() implies key_lt(
                    #[trigger] b2[p],
                    #[trigger] b2[q],
                ) by {
                    if heads_meet(a, b) || !takes_left(a, b) {
                        assert(b2[p] == b[p + 1] && b2[q] == b[q + 1]);
                    }
                }
            }
            lemma_from_sorted(o, a2, b2);
        }
    }
}

/// Merging two catalogs that are each in canonical order (by cardinality, then
/// name) gives, when it succeeds, a catalog in canonical order.
pub proof fn lemma_merge_sorted(a: Seq<DimEntry>, b: Seq<DimEntry>)
    requires
        canonically_sorted(a),
        canonically_sorted(b),
    ensures
        merged(a, b) matches Ok(c) ==> canonically_sorted(c),
{
    lemma_from_sorted(Seq::empty(), a, b);
}

} // verus!
