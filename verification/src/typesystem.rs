//! The structural type language and the name-to-type bindings map.
//!
//! Types are structural values: they are built, compared and displayed,
//! never declared nominally. `Bindings` maps identifier names to their
//! inferred types, later insertions overwriting earlier ones.

use vstd::prelude::*;

verus! {

/// A scalar-level type.
#[derive(Copy, Clone, Debug, PartialEq, Eq, Structural)]
pub enum SimpleType {
    Void,
    Single,
    Double,
    String,
    Unknown,
}

/// Whether a simple type is a numeric scalar.
pub open spec fn simple_is_scalar(s: SimpleType) -> bool {
    s is Single || s is Double
}

/// The display text of a simple type.
pub open spec fn simple_desc(s: SimpleType) -> Seq<char> {
    match s {
        SimpleType::Void => "void"@,
        SimpleType::Single => "single"@,
        SimpleType::Double => "double"@,
        SimpleType::String => "string"@,
        SimpleType::Unknown => "?"@,
    }
}

impl SimpleType {
    /// Whether this type is a numeric scalar.
    pub fn is_scalar(&self) -> (r: bool)
        ensures
            r == simple_is_scalar(*self),
    {
        match self {
            Self::Single | Self::Double => true,
            _ => false,
        }
    }

    /// The display text of this type.
    pub fn describe(&self) -> (r: String)
        ensures
            r@ == simple_desc(*self),
    {
        match self {
            Self::Void => String::from_str("void"),
            Self::Single => String::from_str("single"),
            Self::Double => String::from_str("double"),
            Self::String => String::from_str("string"),
            Self::Unknown => String::from_str("?"),
        }
    }
}

/// The type of a callable value: argument types and a return type.
#[derive(Debug, PartialEq)]
#[verifier::ext_equal]
pub struct CallableType {
    pub args_types: Vec<Type>,
    pub return_type: Box<Type>,
}

/// A structural type: a scalar, a matrix shape, a callable, or unknown.
#[derive(Debug, PartialEq)]
#[verifier::ext_equal]
pub enum Type {
    SimpleType(SimpleType),
    Matrix { size: Option<(usize, usize)>, ty: SimpleType },
    Callable(CallableType),
    Unknown,
}

/// The mathematical value of a `Type`: the same structure with sequences
/// in place of vectors, so that equality of type values is extensional.
#[verifier::ext_equal]
pub enum TypeV {
    SimpleType(SimpleType),
    Matrix { size: Option<(usize, usize)>, ty: SimpleType },
    Callable { args: Seq<TypeV>, ret: Box<TypeV> },
    Unknown,
}

/// The value of a type.
pub open spec fn type_view(t: Type) -> TypeV
    decreases t, 1int,
{
    match t {
        Type::SimpleType(s) => TypeV::SimpleType(s),
        Type::Matrix { size, ty } => TypeV::Matrix { size, ty },
        Type::Callable(c) => callable_view(c),
        Type::Unknown => TypeV::Unknown,
    }
}

/// The value of a callable type.
pub open spec fn callable_view(c: CallableType) -> TypeV
    decreases c, 2int,
{
    TypeV::Callable {
        args: types_view(c.args_types@),
        ret: Box::new(type_view(*c.return_type)),
    }
}

/// The values of a sequence of types.
pub open spec fn types_view(ts: Seq<Type>) -> Seq<TypeV>
    decreases ts, 2int,
{
    if ts.len() == 0 {
        Seq::empty()
    } else {
        seq![type_view(ts[0])] + types_view(ts.drop_first())
    }
}

/// `types_view` maps the sequence elementwise.
pub proof fn lemma_types_view_index(ts: Seq<Type>)
    ensures
        types_view(ts).len() == ts.len(),
        forall|i: int| 0 <= i < ts.len() ==> types_view(ts)[i] == type_view(#[trigger] ts[i]),
    decreases ts.len(),
{
    if ts.len() > 0 {
        lemma_types_view_index(ts.drop_first());
        assert forall|i: int| 0 <= i < ts.len() implies types_view(ts)[i] == type_view(
            #[trigger] ts[i],
        ) by {
            if i > 0 {
                assert(ts.drop_first()[i - 1] == ts[i]);
            }
        }
    }
}

impl View for Type {
    type V = TypeV;

    open spec fn view(&self) -> TypeV {
        type_view(*self)
    }
}

/// Whether a callable's result is a numeric scalar.
pub open spec fn callable_is_scalar(c: CallableType) -> bool
    decreases c, 0int,
{
    type_is_scalar(*c.return_type)
}

/// Whether a type is a numeric scalar.
pub open spec fn type_is_scalar(t: Type) -> bool
    decreases t, 1int,
{
    match t {
        Type::SimpleType(s) => simple_is_scalar(s),
        Type::Callable(c) => callable_is_scalar(c),
        _ => false,
    }
}

/// The simple type of a scalar type, when it has one.
pub open spec fn spec_simple_type(t: Type) -> Option<SimpleType>
    decreases t,
{
    match t {
        Type::SimpleType(s) => Some(s),
        Type::Callable(c) => if callable_is_scalar(c) {
            spec_simple_type(*c.return_type)
        } else {
            None
        },
        _ => None,
    }
}

/// Whether a type value is a numeric scalar.
pub open spec fn type_v_is_scalar(t: TypeV) -> bool
    decreases t,
{
    match t {
        TypeV::SimpleType(s) => simple_is_scalar(s),
        TypeV::Callable { ret, .. } => type_v_is_scalar(*ret),
        _ => false,
    }
}

/// The simple type of a scalar type value, when it has one.
pub open spec fn simple_type_v(t: TypeV) -> Option<SimpleType>
    decreases t,
{
    match t {
        TypeV::SimpleType(s) => Some(s),
        TypeV::Callable { ret, .. } => if type_v_is_scalar(*ret) {
            simple_type_v(*ret)
        } else {
            None
        },
        _ => None,
    }
}

/// Scalar shape and simple type agree between a type and its value.
pub proof fn lemma_simple_type_view(t: Type)
    ensures
        type_is_scalar(t) == type_v_is_scalar(t@),
        spec_simple_type(t) == simple_type_v(t@),
    decreases t,
{
    match t {
        Type::Callable(c) => {
            lemma_simple_type_view(*c.return_type);
        },
        _ => {},
    }
}

/// The decimal digits of a non-negative number, most significant first.
pub open spec fn dec_digits(n: int) -> Seq<char>
    decreases n,
{
    if n < 10 {
        seq![digit_char(n)]
    } else {
        dec_digits(n / 10).push(digit_char(n % 10))
    }
}

/// The character for one decimal digit.
pub open spec fn digit_char(d: int) -> char {
    if d == 0 {
        '0'
    } else if d == 1 {
        '1'
    } else if d == 2 {
        '2'
    } else if d == 3 {
        '3'
    } else if d == 4 {
        '4'
    } else if d == 5 {
        '5'
    } else if d == 6 {
        '6'
    } else if d == 7 {
        '7'
    } else if d == 8 {
        '8'
    } else {
        '9'
    }
}

/// The text of one decimal digit.
fn digit_str(d: usize) -> (r: &'static str)
    requires
        d < 10,
    ensures
        r@ == seq![digit_char(d as int)],
{
    proof {
        reveal_strlit("0");
        reveal_strlit("1");
        reveal_strlit("2");
        reveal_strlit("3");
        reveal_strlit("4");
        reveal_strlit("5");
        reveal_strlit("6");
        reveal_strlit("7");
        reveal_strlit("8");
        reveal_strlit("9");
    }
    match d {
        0 => "0",
        1 => "1",
        2 => "2",
        3 => "3",
        4 => "4",
        5 => "5",
        6 => "6",
        7 => "7",
        8 => "8",
        _ => "9",
    }
}

/// Renders a number in decimal.
pub fn usize_to_string(n: usize) -> (r: String)
    ensures
        r@ == dec_digits(n as int),
    decreases n,
{
    if n < 10 {
        String::from_str(digit_str(n))
    } else {
        let mut s = usize_to_string(n / 10);
        s.append(digit_str(n % 10));
        proof {
            assert(s@ =~= dec_digits(n as int));
        }
        s
    }
}

/// The display text of a type.
pub open spec fn type_desc(t: Type) -> Seq<char>
    decreases t, 1int,
{
    match t {
        Type::SimpleType(s) => simple_desc(s),
        Type::Matrix { size: Some((rows, cols)), ty } => dec_digits(rows as int) + "x"@
            + dec_digits(cols as int) + " "@ + simple_desc(ty) + " matrix"@,
        Type::Matrix { size: None, ty } => simple_desc(ty) + " matrix"@,
        Type::Callable(c) => callable_desc(c),
        Type::Unknown => "?"@,
    }
}

/// The display text of a callable type.
pub open spec fn callable_desc(c: CallableType) -> Seq<char>
    decreases c, 2int,
{
    "("@ + args_desc(c.args_types@) + ") -> "@ + type_desc(*c.return_type)
}

/// The display text of a comma-separated argument type list.
pub open spec fn args_desc(ts: Seq<Type>) -> Seq<char>
    decreases ts, 2int,
{
    if ts.len() == 0 {
        Seq::empty()
    } else if ts.len() == 1 {
        type_desc(ts[0])
    } else {
        type_desc(ts[0]) + ", "@ + args_desc(ts.drop_first())
    }
}

impl CallableType {
    /// Whether this callable returns a numeric scalar.
    pub fn is_scalar(&self) -> (r: bool)
        ensures
            r == callable_is_scalar(*self),
        decreases *self, 0int,
    {
        self.return_type.is_scalar()
    }

    /// The display text of this callable type.
    pub fn describe(&self) -> (r: String)
        ensures
            r@ == callable_desc(*self),
        decreases *self, 2int,
    {
        let mut out = String::from_str("(");
        let args = args_describe(&self.args_types, 0);
        out.append(args.as_str());
        out.append(") -> ");
        let ret = self.return_type.describe();
        out.append(ret.as_str());
        proof {
            assert(self.args_types@.skip(0) =~= self.args_types@);
            assert(out@ =~= callable_desc(*self));
        }
        out
    }
}

/// Renders the argument types from position `k` onward, comma separated.
fn args_describe(ts: &Vec<Type>, k: usize) -> (r: String)
    requires
        k <= ts@.len(),
    ensures
        r@ == args_desc(ts@.skip(k as int)),
    decreases ts@, 3int, ts@.len() - k,
{
    if k >= ts.len() {
        proof {
            assert(ts@.skip(k as int) =~= Seq::<Type>::empty());
        }
        String::new()
    } else if k == ts.len() - 1 {
        let s = ts[k].describe();
        proof {
            assert(ts@.skip(k as int).len() == 1);
            assert(ts@.skip(k as int)[0] == ts@[k as int]);
        }
        s
    } else {
        let mut s = ts[k].describe();
        s.append(", ");
        let rest = args_describe(ts, k + 1);
        s.append(rest.as_str());
        proof {
            assert(ts@.skip(k as int)[0] == ts@[k as int]);
            assert(ts@.skip(k as int).drop_first() =~= ts@.skip(k as int + 1));
            assert(s@ =~= args_desc(ts@.skip(k as int)));
        }
        s
    }
}

impl Type {
    /// Whether this type is a numeric scalar.
    pub fn is_scalar(&self) -> (r: bool)
        ensures
            r == type_is_scalar(*self),
        decreases *self, 1int,
    {
        match self {
            Self::SimpleType(s) => s.is_scalar(),
            Self::Callable(c) => c.is_scalar(),
            _ => false,
        }
    }

    /// The simple type of this type, when it is scalar-shaped.
    pub fn simple_type(&self) -> (r: Option<SimpleType>)
        ensures
            r == spec_simple_type(*self),
        decreases *self,
    {
        match self {
            Self::SimpleType(s) => Some(*s),
            Self::Callable(c) => {
                if c.is_scalar() {
                    c.return_type.simple_type()
                } else {
                    None
                }
            },
            _ => None,
        }
    }

    /// The display text of this type.
    pub fn describe(&self) -> (r: String)
        ensures
            r@ == type_desc(*self),
        decreases *self, 3int,
    {
        match self {
            Self::SimpleType(s) => s.describe(),
            Self::Matrix { size: Some((rows, cols)), ty } => {
                let mut out = usize_to_string(*rows);
                out.append("x");
                let c = usize_to_string(*cols);
                out.append(c.as_str());
                out.append(" ");
                let t = ty.describe();
                out.append(t.as_str());
                out.append(" matrix");
                proof {
                    assert(out@ =~= type_desc(*self));
                }
                out
            },
            Self::Matrix { size: None, ty } => {
                let mut out = ty.describe();
                out.append(" matrix");
                out
            },
            Self::Callable(c) => c.describe(),
            Self::Unknown => String::from_str("?"),
        }
    }
}

/// Copies a type; the copy has the same value.
pub fn clone_type(t: &Type) -> (r: Type)
    ensures
        r@ == t@,
    decreases *t, 1int,
{
    match t {
        Type::SimpleType(s) => Type::SimpleType(*s),
        Type::Matrix { size, ty } => Type::Matrix { size: *size, ty: *ty },
        Type::Callable(c) => Type::Callable(clone_callable(c)),
        Type::Unknown => Type::Unknown,
    }
}

/// Copies a callable type; the copy has the same value.
pub fn clone_callable(c: &CallableType) -> (r: CallableType)
    ensures
        callable_view(r) == callable_view(*c),
    decreases *c, 2int,
{
    let mut args: Vec<Type> = Vec::new();
    let mut k: usize = 0;
    while k < c.args_types.len()
        invariant
            k <= c.args_types@.len(),
            args@.len() == k,
            forall|i: int| 0 <= i < k ==> (#[trigger] args@[i])@ == c.args_types@[i]@,
        decreases c.args_types@.len() - k,
    {
        args.push(clone_type(&c.args_types[k]));
        k = k + 1;
    }
    let ret = clone_type(&*c.return_type);
    let r = CallableType { args_types: args, return_type: Box::new(ret) };
    proof {
        lemma_types_view_index(args@);
        lemma_types_view_index(c.args_types@);
        assert forall|i: int| 0 <= i < args@.len() implies types_view(args@)[i] == types_view(
            c.args_types@,
        )[i] by {
            assert(args@[i]@ == c.args_types@[i]@);
        }
        assert(types_view(args@) =~= types_view(c.args_types@));
    }
    r
}

impl Clone for Type {
    fn clone(&self) -> (r: Self)
        ensures
            r@ == self@,
    {
        clone_type(self)
    }
}

impl Clone for CallableType {
    fn clone(&self) -> (r: Self)
        ensures
            callable_view(r) == callable_view(*self),
    {
        clone_callable(self)
    }
}

/// The type bound to a name by a list of entries, later entries winning.
pub closed spec fn lookup_spec(entries: Seq<(String, Type)>, name: Seq<char>) -> Option<TypeV>
    decreases entries.len(),
{
    if entries.len() == 0 {
        None
    } else if entries.last().0@ == name {
        Some(entries.last().1@)
    } else {
        lookup_spec(entries.drop_last(), name)
    }
}

/// No two entries bind the same name.
pub closed spec fn unique_names(entries: Seq<(String, Type)>) -> bool {
    forall|i: int, j: int| 0 <= i < j < entries.len() ==> entries[i].0@ != entries[j].0@
}

/// A name absent from every entry looks up to nothing.
proof fn lemma_absent_lookup_none(entries: Seq<(String, Type)>, name: Seq<char>)
    requires
        forall|i: int| 0 <= i < entries.len() ==> (#[trigger] entries[i]).0@ != name,
    ensures
        lookup_spec(entries, name) is None,
    decreases entries.len(),
{
    if entries.len() > 0 {
        lemma_absent_lookup_none(entries.drop_last(), name);
    }
}

/// Removing the unique entry for a name drops that name and keeps the rest.
proof fn lemma_lookup_after_remove(entries: Seq<(String, Type)>, j: int)
    requires
        unique_names(entries),
        0 <= j < entries.len(),
    ensures
        forall|k: Seq<char>|
            k != entries[j].0@ ==> #[trigger] lookup_spec(entries.remove(j), k) == lookup_spec(
                entries,
                k,
            ),
        lookup_spec(entries.remove(j), entries[j].0@) is None,
    decreases entries.len(),
{
    let key = entries[j].0@;
    if j == entries.len() - 1 {
        assert(entries.remove(j) =~= entries.drop_last());
        assert forall|i: int| 0 <= i < entries.drop_last().len() implies (#[trigger] entries.drop_last()[i]).0@
            != key by {
            assert(entries.drop_last()[i] == entries[i]);
        }
        lemma_absent_lookup_none(entries.drop_last(), key);
    } else {
        let s1 = entries.remove(j);
        let d = entries.drop_last();
        assert(s1.drop_last() =~= d.remove(j));
        assert(s1.last() == entries.last());
        assert forall|a: int, b: int| 0 <= a < b < d.len() implies (#[trigger] d[a]).0@
            != (#[trigger] d[b]).0@ by {
            assert(d[a] == entries[a]);
            assert(d[b] == entries[b]);
        }
        assert(d[j] == entries[j]);
        lemma_lookup_after_remove(d, j);
        assert(entries.last().0@ != key);
        assert forall|k: Seq<char>| k != key implies #[trigger] lookup_spec(s1, k) == lookup_spec(
            entries,
            k,
        ) by {
            if s1.last().0@ == k {
                assert(lookup_spec(s1, k) == Some(s1.last().1@));
                assert(lookup_spec(entries, k) == Some(entries.last().1@));
            } else {
                assert(lookup_spec(s1, k) == lookup_spec(d.remove(j), k));
                assert(lookup_spec(d.remove(j), k) == lookup_spec(d, k));
                assert(lookup_spec(entries, k) == lookup_spec(d, k));
            }
        }
        assert(lookup_spec(s1, key) == lookup_spec(d.remove(j), key));
    }
}

/// A present entry's name looks up to that entry's type, when names are unique.
proof fn lemma_unique_lookup(entries: Seq<(String, Type)>, i: int)
    requires
        unique_names(entries),
        0 <= i < entries.len(),
    ensures
        lookup_spec(entries, entries[i].0@) == Some(entries[i].1@),
    decreases entries.len(),
{
    if i == entries.len() - 1 {
    } else {
        assert(entries.last().0@ != entries[i].0@);
        assert(unique_names(entries.drop_last()));
        lemma_unique_lookup(entries.drop_last(), i);
    }
}

/// A name that looks up to something names some entry.
proof fn lemma_lookup_some_exists(entries: Seq<(String, Type)>, name: Seq<char>)
    requires
        lookup_spec(entries, name) is Some,
    ensures
        exists|i: int| 0 <= i < entries.len() && (#[trigger] entries[i]).0@ == name,
    decreases entries.len(),
{
    if entries.len() > 0 {
        if entries.last().0@ == name {
            assert(entries[entries.len() - 1].0@ == name);
        } else {
            lemma_lookup_some_exists(entries.drop_last(), name);
            let j = choose|i: int|
                0 <= i < entries.drop_last().len() && (#[trigger] entries.drop_last()[i]).0@
                    == name;
            assert(entries[j].0@ == name);
        }
    }
}

/// The accumulated name-to-type bindings of a document, seeded by the
/// prelude and extended by each assignment in order.
#[derive(Debug)]
pub struct Bindings {
    entries: Vec<(String, Type)>,
}

impl View for Bindings {
    type V = Map<Seq<char>, TypeV>;

    closed spec fn view(&self) -> Map<Seq<char>, TypeV> {
        Map::new(
            |k: Seq<char>| lookup_spec(self.entries@, k) is Some,
            |k: Seq<char>| lookup_spec(self.entries@, k)->0,
        )
    }
}

/// The position of the entry binding a name, if one exists.
fn find_name(entries: &Vec<(String, Type)>, name: &String) -> (r: Option<usize>)
    ensures
        match r {
            Some(f) => f < entries@.len() && entries@[f as int].0@ == name@,
            None => forall|i: int| 0 <= i < entries@.len() ==> (#[trigger] entries@[i]).0@ != name@,
        },
{
    let mut j: usize = 0;
    while j < entries.len()
        invariant
            j <= entries@.len(),
            forall|i: int| 0 <= i < j ==> (#[trigger] entries@[i]).0@ != name@,
        decreases entries@.len() - j,
    {
        if entries[j].0 == *name {
            return Some(j);
        }
        j = j + 1;
    }
    None
}

/// Appending an entry binds its name and leaves other names alone.
proof fn lemma_push_lookup(entries: Seq<(String, Type)>, e: (String, Type))
    ensures
        forall|k: Seq<char>|
            #[trigger] lookup_spec(entries.push(e), k) == if k == e.0@ {
                Some(e.1@)
            } else {
                lookup_spec(entries, k)
            },
{
    assert forall|k: Seq<char>| #[trigger] lookup_spec(entries.push(e), k) == (if k == e.0@ {
        Some(e.1@)
    } else {
        lookup_spec(entries, k)
    }) by {
        assert(entries.push(e).last() == e);
        assert(entries.push(e).drop_last() =~= entries);
    }
}

impl Bindings {
    /// Each name is bound by at most one stored entry.
    pub closed spec fn wf(&self) -> bool {
        unique_names(self.entries@)
    }

    /// An empty set of bindings.
    pub fn new() -> (r: Self)
        ensures
            r@ == Map::<Seq<char>, TypeV>::empty(),
            r.wf(),
    {
        let r = Bindings { entries: Vec::new() };
        proof {
            assert(r@ =~= Map::<Seq<char>, TypeV>::empty());
        }
        r
    }

    /// Binds a name to a type, overwriting any earlier binding of the name.
    pub fn insert(&mut self, name: String, ty: Type)
        requires
            old(self).wf(),
        ensures
            final(self).wf(),
            final(self)@ == old(self)@.insert(name@, ty@),
    {
        let ghost before: Seq<(String, Type)> = self.entries@;
        let found = find_name(&self.entries, &name);
        match found {
            Some(f) => {
                proof {
                    lemma_lookup_after_remove(before, f as int);
                }
                self.entries.remove(f);
                let ghost removed: Seq<(String, Type)> = self.entries@;
                self.entries.push((name, ty));
                proof {
                    let fin = self.entries@;
                    let e = fin.last();
                    assert(fin == removed.push(e));
                    assert(e.0@ == name@ && e.1@ == ty@);
                    assert forall|i: int, jj: int|
                        0 <= i < jj < fin.len() implies (#[trigger] fin[i]).0@
                        != (#[trigger] fin[jj]).0@ by {
                        if jj == fin.len() - 1 {
                            if fin[i].0@ == name@ {
                                assert(lookup_spec(removed, name@) is Some) by {
                                    assert(removed[i] == fin[i]);
                                    lemma_unique_lookup_helper(removed, i);
                                }
                            }
                        } else {
                            lemma_remove_keeps_unique(before, f as int);
                            assert(removed[i] == fin[i]);
                            assert(removed[jj] == fin[jj]);
                        }
                    }
                    lemma_push_lookup(removed, e);
                    assert(self@ =~= old(self)@.insert(name@, ty@));
                }
            },
            None => {
                let ghost before2: Seq<(String, Type)> = self.entries@;
                self.entries.push((name, ty));
                proof {
                    let fin = self.entries@;
                    let e = fin.last();
                    assert(fin == before2.push(e));
                    assert(e.0@ == name@ && e.1@ == ty@);
                    assert forall|i: int, jj: int|
                        0 <= i < jj < fin.len() implies (#[trigger] fin[i]).0@
                        != (#[trigger] fin[jj]).0@ by {
                        if jj == fin.len() - 1 {
                            assert(fin[i] == before[i]);
                        } else {
                            assert(fin[i] == before[i]);
                            assert(fin[jj] == before[jj]);
                        }
                    }
                    lemma_push_lookup(before2, e);
                    lemma_absent_lookup_none(before, name@);
                    assert(self@ =~= old(self)@.insert(name@, ty@));
                }
            },
        }
    }

    /// The type bound to a name, if the name is bound.
    pub fn get(&self, name: &String) -> (r: Option<Type>)
        ensures
            match r {
                Some(t) => self@.contains_key(name@) && t@ == self@[name@],
                None => !self@.contains_key(name@),
            },
    {
        let ghost full: Seq<(String, Type)> = self.entries@;
        let mut j: usize = self.entries.len();
        proof {
            assert(full.take(j as int) =~= full);
        }
        while j > 0
            invariant
                j <= full.len(),
                self.entries@ == full,
                lookup_spec(full.take(j as int), name@) == lookup_spec(full, name@),
            decreases j,
        {
            let jj = j - 1;
            proof {
                assert(full.take(j as int).drop_last() =~= full.take(jj as int));
                assert(full.take(j as int).last() == full[jj as int]);
            }
            if self.entries[jj].0 == *name {
                return Some(clone_type(&self.entries[jj].1));
            }
            j = jj;
        }
        proof {
            assert(full.take(0) =~= Seq::<(String, Type)>::empty());
        }
        None
    }

    /// Every binding as a name/type pair, each bound name exactly once.
    pub fn to_pairs(&self) -> (r: Vec<(String, Type)>)
        requires
            self.wf(),
        ensures
            forall|i: int, j: int| 0 <= i < j < r@.len() ==> (#[trigger] r@[i]).0@ != (#[trigger] r@[j]).0@,
            forall|i: int|
                0 <= i < r@.len() ==> self@.contains_key((#[trigger] r@[i]).0@) && self@[r@[i].0@]
                    == r@[i].1@,
            forall|k: Seq<char>|
                self@.contains_key(k) ==> exists|i: int| 0 <= i < r@.len() && (#[trigger] r@[i]).0@
                    == k,
    {
        let mut out: Vec<(String, Type)> = Vec::new();
        let mut j: usize = 0;
        while j < self.entries.len()
            invariant
                j <= self.entries@.len(),
                out@.len() == j,
                forall|i: int|
                    0 <= i < j ==> (#[trigger] out@[i]).0@ == self.entries@[i].0@ && out@[i].1@
                        == self.entries@[i].1@,
                self.wf(),
            decreases self.entries@.len() - j,
        {
            let name = self.entries[j].0.clone();
            let ty = clone_type(&self.entries[j].1);
            out.push((name, ty));
            j = j + 1;
        }
        proof {
            assert forall|i: int| 0 <= i < out@.len() implies self@.contains_key(
                (#[trigger] out@[i]).0@,
            ) && self@[out@[i].0@] == out@[i].1@ by {
                lemma_unique_lookup(self.entries@, i);
            }
            assert forall|k: Seq<char>| self@.contains_key(k) implies exists|i: int|
                0 <= i < out@.len() && (#[trigger] out@[i]).0@ == k by {
                lemma_lookup_some_exists(self.entries@, k);
                let w = choose|i: int|
                    0 <= i < self.entries@.len() && (#[trigger] self.entries@[i]).0@ == k;
                assert(out@[w].0@ == k);
            }
        }
        out
    }
}

/// A matching entry makes the lookup succeed.
proof fn lemma_unique_lookup_helper(entries: Seq<(String, Type)>, i: int)
    requires
        0 <= i < entries.len(),
    ensures
        lookup_spec(entries, entries[i].0@) is Some,
    decreases entries.len(),
{
    if entries.last().0@ == entries[i].0@ {
    } else {
        lemma_unique_lookup_helper(entries.drop_last(), i);
    }
}

/// Removing an entry keeps the remaining names unique.
proof fn lemma_remove_keeps_unique(entries: Seq<(String, Type)>, j: int)
    requires
        unique_names(entries),
        0 <= j < entries.len(),
    ensures
        unique_names(entries.remove(j)),
{
    assert forall|a: int, b: int|
        0 <= a < b < entries.remove(j).len() implies (#[trigger] entries.remove(j)[a]).0@
        != (#[trigger] entries.remove(j)[b]).0@ by {
        let a0 = if a < j {
            a
        } else {
            a + 1
        };
        let b0 = if b < j {
            b
        } else {
            b + 1
        };
        assert(entries.remove(j)[a] == entries[a0]);
        assert(entries.remove(j)[b] == entries[b0]);
    }
}

/// Entry lists with the same names and type values look up alike.
proof fn lemma_lookup_view_equal(s1: Seq<(String, Type)>, s2: Seq<(String, Type)>)
    requires
        s1.len() == s2.len(),
        forall|i: int|
            0 <= i < s1.len() ==> (#[trigger] s1[i]).0@ == s2[i].0@ && s1[i].1@ == s2[i].1@,
    ensures
        forall|k: Seq<char>| #[trigger] lookup_spec(s1, k) == lookup_spec(s2, k),
    decreases s1.len(),
{
    if s1.len() > 0 {
        assert forall|i: int| 0 <= i < s1.drop_last().len() implies (#[trigger] s1.drop_last()[i]).0@
            == s2.drop_last()[i].0@ && s1.drop_last()[i].1@ == s2.drop_last()[i].1@ by {
            assert(s1.drop_last()[i] == s1[i]);
            assert(s2.drop_last()[i] == s2[i]);
        }
        lemma_lookup_view_equal(s1.drop_last(), s2.drop_last());
        assert(s1.last() == s1[s1.len() - 1]);
        assert(s2.last() == s2[s2.len() - 1]);
        assert forall|k: Seq<char>| #[trigger] lookup_spec(s1, k) == lookup_spec(s2, k) by {
            if s1.last().0@ == k {
                assert(s2.last().0@ == k);
            } else {
                assert(s2.last().0@ != k);
                assert(lookup_spec(s1.drop_last(), k) == lookup_spec(s2.drop_last(), k));
            }
        }
    }
}

impl Clone for Bindings {
    fn clone(&self) -> (r: Self)
        ensures
            r@ == self@,
            r.wf() == self.wf(),
    {
        let mut out: Vec<(String, Type)> = Vec::new();
        let mut j: usize = 0;
        while j < self.entries.len()
            invariant
                j <= self.entries@.len(),
                out@.len() == j,
                forall|i: int|
                    0 <= i < j ==> (#[trigger] out@[i]).0@ == self.entries@[i].0@ && out@[i].1@
                        == self.entries@[i].1@,
            decreases self.entries@.len() - j,
        {
            let name = self.entries[j].0.clone();
            let ty = clone_type(&self.entries[j].1);
            out.push((name, ty));
            j = j + 1;
        }
        let r = Bindings { entries: out };
        proof {
            lemma_lookup_view_equal(r.entries@, self.entries@);
            assert(r@ =~= self@);
            assert(unique_names(r.entries@) == unique_names(self.entries@)) by {
                if unique_names(self.entries@) {
                    assert forall|a: int, b: int|
                        0 <= a < b < r.entries@.len() implies (#[trigger] r.entries@[a]).0@
                        != (#[trigger] r.entries@[b]).0@ by {}
                }
                if unique_names(r.entries@) {
                    assert forall|a: int, b: int|
                        0 <= a < b < self.entries@.len() implies (#[trigger] self.entries@[a]).0@
                        != (#[trigger] self.entries@[b]).0@ by {
                        assert(r.entries@[a].0@ == self.entries@[a].0@);
                        assert(r.entries@[b].0@ == self.entries@[b].0@);
                    }
                }
            }
        }
        r
    }
}

} // verus!
