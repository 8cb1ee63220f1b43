//! The value-shape model and the parser for type annotations.
use vstd::prelude::*;
use vstd::string::{StrSliceExecFns, StringExecFns};
use crate::text::{
    ci_eq, ci_matches, ci_matches_range, ident_range, is_ident, is_ident_char, is_space,
    trim_range,
};

verus! {

/// A built-in scalar type of the documented language.
#[derive(Debug, Clone, Copy, PartialEq, Eq, Structural)]
pub enum Primitive {
    Number,
    String,
    Boolean,
}

/// The inferred structural type of a value.
#[derive(Debug, PartialEq)]
pub enum ValueShape {
    Primitive(Primitive),
    /// A type defined elsewhere in the documentation, left unresolved.
    NamedType(String),
    /// A homogeneous key to value map.
    Mapping(Box<ValueShape>, Box<ValueShape>),
    /// An object of fixed, named fields, in written order.
    Record(Vec<(String, ValueShape)>),
}

/// Why a type annotation could not be read.
#[derive(Debug, Clone, Copy, PartialEq, Eq, Structural)]
pub enum TypeParseError {
    /// Unbalanced or mismatched brackets, or a record field that is not `name: type`.
    Malformed,
    /// A record names the same field twice.
    DuplicateField,
}

pub open spec fn opens(c: char) -> bool {
    c == '<' || c == '{' || c == '(' || c == '['
}

pub open spec fn closes(c: char) -> bool {
    c == '>' || c == '}' || c == ')' || c == ']'
}

/// The closing bracket that matches an opening one.
pub open spec fn closer_of(c: char) -> char {
    if c == '<' {
        '>'
    } else if c == '{' {
        '}'
    } else if c == '(' {
        ')'
    } else {
        ']'
    }
}

/// The closing brackets still owed after reading `t`, innermost last; `None`
/// once a closing bracket does not match the innermost open one.
pub open spec fn pending(t: Seq<char>) -> Option<Seq<char>>
    decreases t.len(),
{
    if t.len() == 0 {
        Some(Seq::empty())
    } else {
        match pending(t.drop_last()) {
            None => None,
            Some(st) => {
                let c = t.last();
                if opens(c) {
                    Some(st.push(closer_of(c)))
                } else if closes(c) {
                    if st.len() > 0 && st.last() == c {
                        Some(st.drop_last())
                    } else {
                        None
                    }
                } else {
                    Some(st)
                }
            },
        }
    }
}

/// Every closing bracket matches the innermost open one, and all are closed
/// at the end.
pub open spec fn balanced(t: Seq<char>) -> bool {
    pending(t) == Some(Seq::<char>::empty())
}

/// A mismatch in a prefix is a mismatch of the whole text.
proof fn lemma_pending_none_extends(t: Seq<char>, k: int)
    requires
        0 <= k <= t.len(),
        pending(t.take(k)) is None,
    ensures
        pending(t) is None,
    decreases t.len() - k,
{
    if k == t.len() {
        assert(t.take(k) =~= t);
    } else {
        assert(t.take(k + 1).drop_last() =~= t.take(k));
        lemma_pending_none_extends(t, k + 1);
    }
}

/// The primitive that a keyword names, in any letter case.
pub open spec fn primitive_of(t: Seq<char>) -> Option<Primitive> {
    if ci_matches(t, seq!['n', 'u', 'm', 'b', 'e', 'r']) {
        Some(Primitive::Number)
    } else if ci_matches(t, seq!['s', 't', 'r', 'i', 'n', 'g']) {
        Some(Primitive::String)
    } else if ci_matches(t, seq!['b', 'o', 'o', 'l', 'e', 'a', 'n']) {
        Some(Primitive::Boolean)
    } else {
        None
    }
}

/// The field names of a record are pairwise distinct names.
pub open spec fn fields_well_named(fs: Seq<(String, ValueShape)>) -> bool {
    &&& forall|i: int| 0 <= i < fs.len() ==> is_ident(#[trigger] fs[i].0@)
    &&& forall|i: int, j: int| 0 <= i < j < fs.len() ==> #[trigger] fs[i].0@ != #[trigger] fs[j].0@
}

/// `t[a..b]` is `t` without its leading and trailing whitespace.
pub open spec fn trimmed_to(t: Seq<char>, a: int, b: int) -> bool {
    &&& 0 <= a <= b <= t.len()
    &&& forall|j: int| 0 <= j < a ==> is_space(#[trigger] t[j])
    &&& forall|j: int| b <= j < t.len() ==> is_space(#[trigger] t[j])
    &&& a < b ==> !is_space(t[a]) && !is_space(t[b - 1])
}

/// `t` trims to `C<K, V>`, with `<` at `p`, the comma at `c` and `>` at `b - 1`,
/// where `C` is `Object` or `Map` in any letter case.
pub open spec fn mapping_at(t: Seq<char>, a: int, p: int, c: int, b: int) -> bool {
    &&& trimmed_to(t, a, b)
    &&& a <= p < c < b - 1
    &&& t[p] == '<' && t[c] == ',' && t[b - 1] == '>'
    &&& first_top_level(t.subrange(a, b), '<', p - a)
    &&& container_keyword(t.subrange(a, p))
    &&& first_top_level(t.subrange(p + 1, b - 1), ',', c - p - 1)
    &&& no_top_level(t.subrange(c + 1, b - 1), ',')
}

/// `n` is `t` without its leading and trailing whitespace.
pub open spec fn trims_to(t: Seq<char>, n: Seq<char>) -> bool {
    exists|a: int, b: int| #[trigger] trimmed_to(t, a, b) && n == t.subrange(a, b)
}

/// `t` trims to a map container.
pub open spec fn mapping_in(t: Seq<char>) -> bool {
    exists|a: int, p: int, c: int, b: int| #[trigger] mapping_at(t, a, p, c, b)
}

/// `t` trims to a map container whose key type reads as `k` and whose value
/// type reads as `v`.
pub open spec fn mapping_parts(t: Seq<char>, k: ValueShape, v: ValueShape) -> bool
    decreases t.len(), 0int,
{
    exists|a: int, p: int, c: int, b: int|
        #[trigger] mapping_at(t, a, p, c, b) && read_shape(t.subrange(p + 1, c), Ok(k))
            && read_shape(t.subrange(c + 1, b - 1), Ok(v))
}

/// `u` is all whitespace.
pub open spec fn blank(u: Seq<char>) -> bool {
    forall|j: int| 0 <= j < u.len() ==> is_space(#[trigger] u[j])
}

/// The field of a record body `u` that starts at `st` ends at `en`: at the
/// first top-level comma from `st` on, or at the end of `u` when there is none.
pub open spec fn segment_end(u: Seq<char>, st: int, en: int) -> bool {
    let rest = u.subrange(st, u.len() as int);
    first_top_level(rest, ',', en - st) || (no_top_level(rest, ',') && en == u.len())
}

/// The field text `seg` is `name: type`, split at its first top-level colon,
/// with `f`'s name the trimmed name and `f`'s shape read from the type.
pub open spec fn field_reads(seg: Seq<char>, f: (String, ValueShape)) -> bool {
    exists|q: int|
        #[trigger] first_top_level(seg, ':', q) && trims_to(seg.subrange(0, q), f.0@) && read_from(
            seg.subrange(q + 1, seg.len() as int),
            Ok::<ValueShape, TypeParseError>(f.1),
        )
}

/// `bs` holds the start of each field of the record body `u`, and one past the
/// end; field `i` of `fs` is read from `u[bs[i]..bs[i + 1] - 1]`.
pub open spec fn body_bounds(u: Seq<char>, fs: Seq<(String, ValueShape)>, bs: Seq<int>) -> bool {
    &&& bs.len() == fs.len() + 1
    &&& bs[0] == 0
    &&& bs[fs.len() as int] == u.len() + 1
    &&& forall|i: int|
        0 <= i < fs.len() ==> 0 <= #[trigger] bs[i] < bs[i + 1] <= u.len() + 1 && segment_end(
            u,
            bs[i],
            bs[i + 1] - 1,
        ) && field_reads(u.subrange(bs[i], bs[i + 1] - 1), fs[i])
}

/// The field text `seg` fails to read with `e`, after the fields `fs`: it has
/// no top-level colon, or its trimmed name is not a name (`Malformed`), or
/// repeats a name of `fs` (`DuplicateField`), or its type fails with `e`.
pub open spec fn field_fails(seg: Seq<char>, fs: Seq<(String, ValueShape)>, e: TypeParseError) -> bool {
    (no_top_level(seg, ':') && e == TypeParseError::Malformed) || exists|q: int, n: Seq<char>|
        #[trigger] first_top_level(seg, ':', q) && #[trigger] trims_to(seg.subrange(0, q), n) && (
        (!is_ident(n) && e == TypeParseError::Malformed) || (is_ident(n) && (exists|j: int|
            0 <= j < fs.len() && #[trigger] fs[j].0@ == n) && e == TypeParseError::DuplicateField)
            || (is_ident(n) && (forall|j: int| 0 <= j < fs.len() ==> #[trigger] fs[j].0@ != n)
            && read_from(seg.subrange(q + 1, seg.len() as int), Err(e))))
}

/// The fields `fs` start the record body `u`, read from the parts that `bs`
/// bounds, and the next field, ending at `en`, fails with `e`.
pub open spec fn fails_at(
    u: Seq<char>,
    fs: Seq<(String, ValueShape)>,
    bs: Seq<int>,
    en: int,
    e: TypeParseError,
) -> bool {
    &&& bs.len() == fs.len() + 1
    &&& bs[0] == 0
    &&& forall|i: int|
        0 <= i < fs.len() ==> 0 <= #[trigger] bs[i] < bs[i + 1] <= u.len() + 1 && segment_end(
            u,
            bs[i],
            bs[i + 1] - 1,
        ) && field_reads(u.subrange(bs[i], bs[i + 1] - 1), fs[i])
    &&& fields_well_named(fs)
    &&& 0 <= bs[fs.len() as int] <= en <= u.len()
    &&& segment_end(u, bs[fs.len() as int], en)
    &&& field_fails(u.subrange(bs[fs.len() as int], en), fs, e)
}

/// Reading the record body `u` field by field, the first field that does not
/// read fails with `e`.
pub open spec fn record_fails(u: Seq<char>, e: TypeParseError) -> bool {
    !blank(u) && exists|fs: Seq<(String, ValueShape)>, bs: Seq<int>, en: int|
        #[trigger] fails_at(u, fs, bs, en, e)
}

/// The fields `fs` are those of the record body `u`, in written order.
pub open spec fn record_body(u: Seq<char>, fs: Seq<(String, ValueShape)>) -> bool {
    (blank(u) && fs.len() == 0) || (!blank(u) && exists|bs: Seq<int>| #[trigger]
        body_bounds(u, fs, bs))
}

/// `t` trims to a map container whose key or value type fails to read with `e`.
pub open spec fn mapping_fails(t: Seq<char>, e: TypeParseError) -> bool {
    exists|a: int, p: int, c: int, b: int|
        #[trigger] mapping_at(t, a, p, c, b) && (read_from(
            t.subrange(p + 1, c),
            Err::<ValueShape, TypeParseError>(e),
        ) || read_from(t.subrange(c + 1, b - 1), Err::<ValueShape, TypeParseError>(e)))
}

/// What holds of a shape read from `t`, of the key and value types of a map
/// container read from it, and of the field types of a record read from it.
pub open spec fn read_shape(t: Seq<char>, r: Result<ValueShape, TypeParseError>) -> bool
    decreases t.len(), 1int,
{
    &&& read_from(t, r)
    &&& r matches Ok(ValueShape::Mapping(k, v)) ==> mapping_parts(t, *k, *v)
    &&& (balanced(t) && mapping_in(t) && r is Err) ==> mapping_fails(t, r->Err_0)
    &&& forall|a: int, b: int|
        #[trigger] trimmed_to(t, a, b) && a + 2 <= b && t[a] == '{' && t[b - 1] == '}' && balanced(
            t,
        ) && r is Err ==> record_fails(t.subrange(a + 1, b - 1), r->Err_0)
    &&& r matches Ok(ValueShape::Record(fs)) ==> exists|a: int, b: int|
        #![trigger t.subrange(a, b)]
        trimmed_to(t, a, b) && a + 2 <= b && t[a] == '{' && t[b - 1] == '}' && record_body(
            t.subrange(a + 1, b - 1),
            fs@,
        )
}


/// `t` is `Object` or `Map`, in any letter case, with optional surrounding
/// whitespace.
pub open spec fn container_keyword(t: Seq<char>) -> bool {
    exists|a: int, b: int|
        #![trigger t.subrange(a, b)]
        trimmed_to(t, a, b) && (ci_matches(t.subrange(a, b), seq!['o', 'b', 'j', 'e', 'c', 't'])
            || ci_matches(t.subrange(a, b), seq!['m', 'a', 'p']))
}

/// What holds of every shape read from the text `t`.
pub open spec fn read_from(t: Seq<char>, r: Result<ValueShape, TypeParseError>) -> bool {
    &&& !balanced(t) ==> r == Err::<ValueShape, TypeParseError>(TypeParseError::Malformed)
    &&& (forall|j: int| 0 <= j < t.len() ==> is_space(#[trigger] t[j])) ==> r == Err::<
        ValueShape,
        TypeParseError,
    >(TypeParseError::Malformed)
    &&& primitive_of(t) matches Some(p) ==> r == Ok::<ValueShape, TypeParseError>(
        ValueShape::Primitive(p),
    )
    &&& (balanced(t) && is_ident(t) && primitive_of(t) is None) ==> (match r {
        Ok(ValueShape::NamedType(n)) => n@ == t,
        _ => false,
    })
    &&& mapping_in(t) ==> (r matches Ok(v) ==> v is Mapping)
    &&& forall|a: int, b: int|
        #[trigger] trimmed_to(t, a, b) && a < b && balanced(t) && !mapping_in(t) && !(a + 2 <= b
            && t[a] == '{' && t[b - 1] == '}') && primitive_of(t.subrange(a, b)) is None ==> (match r {
            Ok(ValueShape::NamedType(n)) => n@ == t.subrange(a, b),
            _ => false,
        })
    &&& forall|a: int, b: int|
        #[trigger] trimmed_to(t, a, b) && a + 2 <= b && t[a] == '{' && t[b - 1] == '}' ==> (r matches Ok(
            v,
        ) ==> v is Record)
    &&& forall|a: int, b: int|
        #[trigger] trimmed_to(t, a, b) && primitive_of(t.subrange(a, b)) is Some ==> r == Ok::<
            ValueShape,
            TypeParseError,
        >(ValueShape::Primitive(primitive_of(t.subrange(a, b))->0))
    &&& forall|a: int, b: int|
        #[trigger] trimmed_to(t, a, b) && is_ident(t.subrange(a, b)) && primitive_of(
            t.subrange(a, b),
        ) is None ==> (match r {
            Ok(ValueShape::NamedType(n)) => n@ == t.subrange(a, b),
            _ => false,
        })
    &&& match r {
        Ok(ValueShape::Primitive(p)) => exists|a: int, b: int|
            #![trigger t.subrange(a, b)]
            trimmed_to(t, a, b) && primitive_of(t.subrange(a, b)) == Some(p),
        Ok(ValueShape::NamedType(n)) => exists|a: int, b: int|
            #![trigger t.subrange(a, b)]
            trimmed_to(t, a, b) && a < b && n@ == t.subrange(a, b) && primitive_of(
                t.subrange(a, b),
            ) is None && !(t[a] == '{' && t[b - 1] == '}') && !mapping_in(t),
        Ok(ValueShape::Mapping(_, _)) => mapping_in(t),
        Ok(ValueShape::Record(fs)) => fields_well_named(fs@) && exists|a: int, b: int|
            #![trigger t.subrange(a, b)]
            trimmed_to(t, a, b) && a + 2 <= b && t[a] == '{' && t[b - 1] == '}',
        Err(_) => true,
    }
}

/// Whether `s[lo..hi]` is balanced.
pub fn balanced_range(s: &str, lo: usize, hi: usize) -> (r: bool)
    requires
        lo <= hi <= s@.len(),
    ensures
        r == balanced(s@.subrange(lo as int, hi as int)),
{
    let ghost t = s@.subrange(lo as int, hi as int);
    let mut st: Vec<char> = Vec::new();
    let mut i = lo;
    assert(t.take(0) =~= Seq::<char>::empty());
    while i < hi
        invariant
            lo <= i <= hi <= s@.len(),
            t == s@.subrange(lo as int, hi as int),
            pending(t.take(i - lo)) == Some(st@),
        decreases hi - i,
    {
        let c = s.get_char(i);
        assert(t.take(i - lo + 1).drop_last() =~= t.take(i - lo));
        assert(t.take(i - lo + 1).last() == c);
        if c == '<' || c == '{' || c == '(' || c == '[' {
            let d = if c == '<' {
                '>'
            } else if c == '{' {
                '}'
            } else if c == '(' {
                ')'
            } else {
                ']'
            };
            st.push(d);
        } else if c == '>' || c == '}' || c == ')' || c == ']' {
            let n = st.len();
            if n > 0 && st[n - 1] == c {
                st.pop();
                assert(st@ =~= pending(t.take(i - lo)).unwrap().drop_last());
            } else {
                proof {
                    lemma_pending_none_extends(t, i - lo + 1);
                }
                return false;
            }
        }
        i = i + 1;
    }
    assert(t.take(hi - lo) =~= t);
    proof {
        if st.len() == 0 {
            assert(st@ =~= Seq::<char>::empty());
        }
    }
    st.len() == 0
}

/// Bracket depth after reading `t`, where a closing bracket at depth 0 is
/// passed over.
pub open spec fn clamped_depth(t: Seq<char>) -> nat
    decreases t.len(),
{
    if t.len() == 0 {
        0
    } else {
        let d = clamped_depth(t.drop_last());
        if opens(t.last()) {
            d + 1
        } else if closes(t.last()) && d > 0 {
            (d - 1) as nat
        } else {
            d
        }
    }
}

/// `t[k]` is `ch`, outside any bracket opened before it.
pub open spec fn top_level_at(t: Seq<char>, ch: char, k: int) -> bool {
    0 <= k < t.len() && t[k] == ch && clamped_depth(t.take(k)) == 0
}

/// `k` is the first position of `t` holding `ch` outside brackets.
pub open spec fn first_top_level(t: Seq<char>, ch: char, k: int) -> bool {
    top_level_at(t, ch, k) && forall|j: int| 0 <= j < k ==> !#[trigger] top_level_at(t, ch, j)
}

/// No position of `t` holds `ch` outside brackets.
pub open spec fn no_top_level(t: Seq<char>, ch: char) -> bool {
    forall|j: int| !#[trigger] top_level_at(t, ch, j)
}

/// The first position in `[lo, hi)` holding `ch` outside any brackets opened
/// within the range.
pub fn find_top_level(s: &str, lo: usize, hi: usize, ch: char) -> (r: Option<usize>)
    requires
        lo <= hi <= s@.len(),
    ensures
        match r {
            Some(i) => lo <= i < hi && s@[i as int] == ch && first_top_level(
                s@.subrange(lo as int, hi as int),
                ch,
                i - lo,
            ),
            None => no_top_level(s@.subrange(lo as int, hi as int), ch),
        },
{
    let ghost t = s@.subrange(lo as int, hi as int);
    let mut d: usize = 0;
    let mut i = lo;
    assert(t.take(0) =~= Seq::<char>::empty());
    while i < hi
        invariant
            lo <= i <= hi <= s@.len(),
            t == s@.subrange(lo as int, hi as int),
            d as int == clamped_depth(t.take(i - lo)),
            d <= i - lo,
            forall|j: int| 0 <= j < i - lo ==> !#[trigger] top_level_at(t, ch, j),
        decreases hi - i,
    {
        let c = s.get_char(i);
        assert(t[i - lo] == c);
        assert(t.take(i - lo + 1).drop_last() =~= t.take(i - lo));
        assert(t.take(i - lo + 1).last() == c);
        if c == ch && d == 0 {
            return Some(i);
        }
        if c == '<' || c == '{' || c == '(' || c == '[' {
            d = d + 1;
        } else if (c == '>' || c == '}' || c == ')' || c == ']') && d > 0 {
            d = d - 1;
        }
        i = i + 1;
    }
    assert forall|j: int| !#[trigger] top_level_at(t, ch, j) by {
        if 0 <= j < t.len() {
            assert(j < i - lo);
        }
    }
    None
}


/// Text made of a name and surrounding whitespace is balanced.
pub proof fn lemma_trimmed_ident_balanced(t: Seq<char>, x: int, y: int)
    requires
        trimmed_to(t, x, y),
        is_ident(t.subrange(x, y)),
    ensures
        balanced(t),
{
    assert forall|i: int| 0 <= i < t.len() implies !opens(#[trigger] t[i]) && !closes(t[i]) by {
        if x <= i < y {
            assert(t[i] == t.subrange(x, y)[i - x]);
            assert(is_ident_char(t.subrange(x, y)[i - x]));
        }
    }
    lemma_plain_balanced(t);
}

/// Text that is not all whitespace trims in one way only.
pub proof fn lemma_trim_unique(t: Seq<char>, a: int, b: int, x: int, y: int)
    requires
        trimmed_to(t, a, b),
        trimmed_to(t, x, y),
        x < y,
    ensures
        a == x && b == y,
{
    if a == b {
        assert(is_space(t[x]));
    }
    if a < x {
        assert(is_space(t[a]));
    }
    if x < a {
        assert(is_space(t[x]));
    }
    if b < y {
        assert(is_space(t[y - 1]));
    }
    if y < b {
        assert(is_space(t[b - 1]));
    }
}

/// A name holds no bracket, so it is balanced.
pub proof fn lemma_ident_balanced(t: Seq<char>)
    requires
        is_ident(t),
    ensures
        balanced(t),
{
    assert forall|i: int| 0 <= i < t.len() implies !opens(#[trigger] t[i]) && !closes(t[i]) by {
        assert(is_ident_char(t[i]));
    }
    lemma_plain_balanced(t);
}

proof fn lemma_plain_balanced(t: Seq<char>)
    requires
        forall|i: int| 0 <= i < t.len() ==> !opens(#[trigger] t[i]) && !closes(t[i]),
    ensures
        balanced(t),
    decreases t.len(),
{
    if t.len() > 0 {
        let u = t.drop_last();
        assert forall|i: int| 0 <= i < u.len() implies !opens(#[trigger] u[i]) && !closes(u[i]) by {
            assert(u[i] == t[i]);
        }
        lemma_plain_balanced(u);
        assert(!opens(t[t.len() - 1]) && !closes(t[t.len() - 1]));
    }
}

proof fn lemma_ci_keyword_is_ident(t: Seq<char>, k: Seq<char>)
    requires
        ci_matches(t, k),
        forall|i: int| 0 <= i < k.len() ==> 'a' <= #[trigger] k[i] && k[i] <= 'z',
    ensures
        is_ident(t) || t.len() == 0,
{
    assert forall|i: int| 0 <= i < t.len() implies #[trigger] is_ident_char(t[i]) by {
        assert(ci_eq(t[i], k[i]));
        assert('a' <= k[i] && k[i] <= 'z');
    }
}

/// Each primitive keyword, in any letter case, is also a name.
pub proof fn lemma_keyword_is_ident(t: Seq<char>)
    requires
        primitive_of(t) is Some,
    ensures
        is_ident(t),
{
    let n = seq!['n', 'u', 'm', 'b', 'e', 'r'];
    let st = seq!['s', 't', 'r', 'i', 'n', 'g'];
    let bo = seq!['b', 'o', 'o', 'l', 'e', 'a', 'n'];
    assert forall|i: int| 0 <= i < n.len() implies 'a' <= #[trigger] n[i] && n[i] <= 'z' by {}
    assert forall|i: int| 0 <= i < st.len() implies 'a' <= #[trigger] st[i] && st[i] <= 'z' by {}
    assert forall|i: int| 0 <= i < bo.len() implies 'a' <= #[trigger] bo[i] && bo[i] <= 'z' by {}
    if ci_matches(t, n) {
        lemma_ci_keyword_is_ident(t, n);
    } else if ci_matches(t, st) {
        lemma_ci_keyword_is_ident(t, st);
    } else {
        lemma_ci_keyword_is_ident(t, bo);
    }
}

/// Trimming `s[lo..hi]` to `s[a..b]` is trimming its own text to `a - lo .. b - lo`.
pub proof fn lemma_trimmed_within(s: Seq<char>, lo: int, hi: int, a: int, b: int)
    requires
        0 <= lo <= a <= b <= hi <= s.len(),
        forall|j: int| lo <= j < a ==> is_space(s[j]),
        forall|j: int| b <= j < hi ==> is_space(s[j]),
        a < b ==> !is_space(s[a]) && !is_space(s[b - 1]),
    ensures
        trimmed_to(s.subrange(lo, hi), a - lo, b - lo),
        s.subrange(lo, hi).subrange(a - lo, b - lo) == s.subrange(a, b),
{
    let t = s.subrange(lo, hi);
    assert forall|j: int| 0 <= j < a - lo implies is_space(#[trigger] t[j]) by {
        assert(t[j] == s[lo + j]);
    }
    assert forall|j: int| b - lo <= j < t.len() implies is_space(#[trigger] t[j]) by {
        assert(t[j] == s[lo + j]);
    }
    assert(t.subrange(a - lo, b - lo) =~= s.subrange(a, b));
}

/// Reads the annotation `s[lo..hi]`; surrounding whitespace is ignored.
pub fn parse_range(s: &str, lo: usize, hi: usize) -> (r: Result<ValueShape, TypeParseError>)
    requires
        lo <= hi <= s@.len(),
    ensures
        read_shape(s@.subrange(lo as int, hi as int), r),
    decreases hi - lo, 1int,
{
    let ghost t = s@.subrange(lo as int, hi as int);
    proof {
        reveal_strlit("number");
        reveal_strlit("string");
        reveal_strlit("boolean");
        assert("number"@ =~= seq!['n', 'u', 'm', 'b', 'e', 'r']);
        assert("string"@ =~= seq!['s', 't', 'r', 'i', 'n', 'g']);
        assert("boolean"@ =~= seq!['b', 'o', 'o', 'l', 'e', 'a', 'n']);
        if primitive_of(t) is Some {
            lemma_keyword_is_ident(t);
        }
        if is_ident(t) {
            lemma_ident_balanced(t);
        }
        assert forall|x: int, y: int|
            #[trigger] trimmed_to(t, x, y) && (primitive_of(t.subrange(x, y)) is Some || is_ident(
                t.subrange(x, y),
            )) implies balanced(t) by {
            if primitive_of(t.subrange(x, y)) is Some {
                lemma_keyword_is_ident(t.subrange(x, y));
            }
            lemma_trimmed_ident_balanced(t, x, y);
        }
    }
    if !balanced_range(s, lo, hi) {
        return Err(TypeParseError::Malformed);
    }
    let (a, b) = trim_range(s, lo, hi);
    proof {
        if is_ident(t) {
            let z = t.len() - 1;
            assert(t[0] == s@[lo as int] && t[z] == s@[hi - 1]);
            assert(is_ident_char(t[0]) && is_ident_char(t[z]));
            assert(a == lo && b == hi);
            assert(t[z] != '>' && t[0] != '{');
            assert(s@.subrange(a as int, b as int) =~= t);
        }
    }
    proof {
        lemma_trimmed_within(s@, lo as int, hi as int, a as int, b as int);
        assert forall|x: int, y: int| #[trigger] trimmed_to(t, x, y) && x < y implies x == a - lo
            && y == b - lo by {
            lemma_trim_unique(t, a - lo, b - lo, x, y);
        }
    }
    if a == b {
        return Err(TypeParseError::Malformed);
    }
    assert(t[a - lo] == s@[a as int] && !is_space(t[a - lo]));
    proof {
        lemma_trimmed_within(s@, lo as int, hi as int, a as int, b as int);
        assert(t[a - lo] == s@[a as int] && t[b - lo - 1] == s@[b - 1]);
        let u = s@.subrange(a as int, b as int);
        if primitive_of(u) is Some {
            lemma_keyword_is_ident(u);
        }
        if is_ident(u) {
            assert(u[0] == s@[a as int] && u[u.len() - 1] == s@[b - 1]);
            assert(is_ident_char(u[0]) && is_ident_char(u[u.len() - 1]));
        }
        assert forall|x: int, y: int| #[trigger] trimmed_to(t, x, y) && x < y implies x == a - lo
            && y == b - lo by {
            lemma_trim_unique(t, a - lo, b - lo, x, y);
        }
        assert forall|x: int, y: int|
            #[trigger] trimmed_to(t, x, y) && (primitive_of(t.subrange(x, y)) is Some || is_ident(
                t.subrange(x, y),
            )) implies x == a - lo && y == b - lo by {
            if primitive_of(t.subrange(x, y)) is Some {
                lemma_keyword_is_ident(t.subrange(x, y));
            }
            lemma_trim_unique(t, a - lo, b - lo, x, y);
        }
    }
    let first = s.get_char(a);
    let last = s.get_char(b - 1);
    if last == '>' {
        match parse_mapping(s, lo, hi, a, b) {
            Some(m) => {
                proof {
                    if m is Err {
                        let e = m->Err_0;
                        let (x, q, c, y) = choose|x: int, q: int, c: int, y: int|
                            #[trigger] mapping_at(t, x, q, c, y) && (read_from(
                                t.subrange(q + 1, c),
                                Err::<ValueShape, TypeParseError>(e),
                            ) || read_from(
                                t.subrange(c + 1, y - 1),
                                Err::<ValueShape, TypeParseError>(e),
                            ));
                        assert(mapping_in(t));
                    }
                }
                return m;
            },
            None => {},
        }
    }
    if first == '{' && last == '}' && a + 2 <= b {
        let rec = parse_record(s, a, b);
        proof {
            assert(t.subrange(a - lo + 1, b - lo - 1) =~= s@.subrange(a + 1, b - 1));
        }
        return rec;
    }
    if ci_matches_range(s, a, b, "number") {
        return Ok(ValueShape::Primitive(Primitive::Number));
    }
    if ci_matches_range(s, a, b, "string") {
        return Ok(ValueShape::Primitive(Primitive::String));
    }
    if ci_matches_range(s, a, b, "boolean") {
        return Ok(ValueShape::Primitive(Primitive::Boolean));
    }
    Ok(ValueShape::NamedType(s.substring_char(a, b).to_string()))
}

/// The positions found in `s` show that `s[lo..hi]` is a map container.
proof fn lemma_mapping_witness(
    s: Seq<char>,
    lo: int,
    hi: int,
    a: int,
    p: int,
    c: int,
    b: int,
    ka: int,
    kb: int,
)
    requires
        0 <= lo <= a <= ka <= kb <= p < c < b - 1,
        b <= hi <= s.len(),
        trimmed_to(s.subrange(lo, hi), a - lo, b - lo),
        forall|j: int| a <= j < ka ==> is_space(s[j]),
        forall|j: int| kb <= j < p ==> is_space(s[j]),
        ka < kb ==> !is_space(s[ka]) && !is_space(s[kb - 1]),
        ci_matches(s.subrange(ka, kb), seq!['o', 'b', 'j', 'e', 'c', 't']) || ci_matches(
            s.subrange(ka, kb),
            seq!['m', 'a', 'p'],
        ),
        s[p] == '<' && s[c] == ',' && s[b - 1] == '>',
        first_top_level(s.subrange(a, b), '<', p - a),
        first_top_level(s.subrange(p + 1, b - 1), ',', c - p - 1),
        no_top_level(s.subrange(c + 1, b - 1), ','),
    ensures
        mapping_at(s.subrange(lo, hi), a - lo, p - lo, c - lo, b - lo),
{
    let t = s.subrange(lo, hi);
    assert(t.subrange(a - lo, b - lo) =~= s.subrange(a, b));
    assert(t.subrange(p - lo + 1, b - lo - 1) =~= s.subrange(p + 1, b - 1));
    assert(t.subrange(c - lo + 1, b - lo - 1) =~= s.subrange(c + 1, b - 1));
    lemma_trimmed_within(s, a, p, ka, kb);
    let u = s.subrange(a, p);
    assert(t.subrange(a - lo, p - lo) =~= u);
    assert(trimmed_to(u, ka - a, kb - a) && u.subrange(ka - a, kb - a) == s.subrange(ka, kb));
    assert(container_keyword(u));
    assert(t[p - lo] == s[p] && t[c - lo] == s[c] && t[b - lo - 1] == s[b - 1]);
}

/// Where `s[lo..hi]` trims to `s[a..b]`, the positions of any map container
/// form in it are those that a scan of `s[a..b]` finds.
proof fn lemma_mapping_coords(
    s: Seq<char>,
    lo: int,
    hi: int,
    a: int,
    b: int,
    x: int,
    p: int,
    c: int,
    y: int,
)
    requires
        0 <= lo <= a < b <= hi <= s.len(),
        trimmed_to(s.subrange(lo, hi), a - lo, b - lo),
        mapping_at(s.subrange(lo, hi), x, p, c, y),
    ensures
        x == a - lo && y == b - lo,
        first_top_level(s.subrange(a, b), '<', p + lo - a),
        container_keyword(s.subrange(a, p + lo)),
        first_top_level(s.subrange(p + lo + 1, b - 1), ',', c - p - 1),
        no_top_level(s.subrange(c + lo + 1, b - 1), ','),
{
    let t = s.subrange(lo, hi);
    lemma_trim_unique(t, a - lo, b - lo, x, y);
    assert(t.subrange(x, y) =~= s.subrange(a, b));
    assert(t.subrange(x, p) =~= s.subrange(a, p + lo));
    assert(t.subrange(p + 1, y - 1) =~= s.subrange(p + lo + 1, b - 1));
    assert(t.subrange(c + 1, y - 1) =~= s.subrange(c + lo + 1, b - 1));
}

/// Reads `s[a..b]` as `Container<K, V>` when its container keyword is `Object`
/// or `Map` and it holds exactly one top-level comma; `None` when it has
/// another form.
#[verifier::rlimit(60)]
fn parse_mapping(s: &str, lo: usize, hi: usize, a: usize, b: usize) -> (r: Option<
    Result<ValueShape, TypeParseError>,
>)
    requires
        lo <= a < b <= hi <= s@.len(),
        trimmed_to(s@.subrange(lo as int, hi as int), a - lo, b - lo),
        s@[b - 1] == '>',
    ensures
        r is None ==> !mapping_in(s@.subrange(lo as int, hi as int)),
        r matches Some(Ok(v)) ==> (v matches ValueShape::Mapping(k, w) && mapping_parts(
            s@.subrange(lo as int, hi as int),
            *k,
            *w,
        )),
        r matches Some(Err(e)) ==> mapping_fails(s@.subrange(lo as int, hi as int), e),
    decreases b - a, 0int,
{
    let ghost t = s@.subrange(lo as int, hi as int);
    proof {
        reveal_strlit("object");
        reveal_strlit("map");
        assert("object"@ =~= seq!['o', 'b', 'j', 'e', 'c', 't']);
        assert("map"@ =~= seq!['m', 'a', 'p']);
    }
    let p = match find_top_level(s, a, b, '<') {
        Some(p) => p,
        None => {
            assert forall|x: int, q: int, c: int, y: int| !#[trigger] mapping_at(t, x, q, c, y) by {
                if mapping_at(t, x, q, c, y) {
                    lemma_mapping_coords(s@, lo as int, hi as int, a as int, b as int, x, q, c, y);
                    assert(top_level_at(s@.subrange(a as int, b as int), '<', q + lo - a));
                }
            }
            return None;
        },
    };
    let (ka, kb) = trim_range(s, a, p);
    if !(ci_matches_range(s, ka, kb, "object") || ci_matches_range(s, ka, kb, "map")) {
        proof {
            lemma_trimmed_within(s@, a as int, p as int, ka as int, kb as int);
            let u = s@.subrange(a as int, p as int);
            assert forall|x: int, q: int, c: int, y: int| !#[trigger] mapping_at(t, x, q, c, y) by {
                if mapping_at(t, x, q, c, y) {
                    lemma_mapping_coords(s@, lo as int, hi as int, a as int, b as int, x, q, c, y);
                    assert(q + lo == p);
                    let (x2, y2) = choose|x2: int, y2: int|
                        trimmed_to(u, x2, y2) && (ci_matches(
                            #[trigger] u.subrange(x2, y2),
                            seq!['o', 'b', 'j', 'e', 'c', 't'],
                        ) || ci_matches(u.subrange(x2, y2), seq!['m', 'a', 'p']));
                    lemma_trim_unique(u, ka - a, kb - a, x2, y2);
                }
            }
        }
        return None;
    }
    let c = match find_top_level(s, p + 1, b - 1, ',') {
        Some(c) => c,
        None => {
            assert forall|x: int, q: int, c: int, y: int| !#[trigger] mapping_at(t, x, q, c, y) by {
                if mapping_at(t, x, q, c, y) {
                    lemma_mapping_coords(s@, lo as int, hi as int, a as int, b as int, x, q, c, y);
                    assert(q + lo == p);
                    assert(top_level_at(s@.subrange(p + 1, b - 1), ',', c - q - 1));
                }
            }
            return None;
        },
    };
    match find_top_level(s, c + 1, b - 1, ',') {
        Some(d) => {
            assert forall|x: int, q: int, c2: int, y: int| !#[trigger] mapping_at(t, x, q, c2, y) by {
                if mapping_at(t, x, q, c2, y) {
                    lemma_mapping_coords(s@, lo as int, hi as int, a as int, b as int, x, q, c2, y);
                    assert(q + lo == p);
                    assert(c2 + lo == c);
                    assert(top_level_at(s@.subrange(c + 1, b - 1), ',', d - c - 1));
                }
            }
            return None;
        },
        None => {},
    }
    proof {
        lemma_mapping_witness(s@, lo as int, hi as int, a as int, p as int, c as int, b as int,
            ka as int, kb as int);
        assert(mapping_at(t, a - lo, p - lo, c - lo, b - lo));
        assert(t.subrange(p - lo + 1, c - lo) =~= s@.subrange(p + 1, c as int));
        assert(t.subrange(c - lo + 1, b - lo - 1) =~= s@.subrange(c + 1, b - 1));
    }
    let key = match parse_range(s, p + 1, c) {
        Ok(v) => v,
        Err(e) => {
            return Some(Err(e));
        },
    };
    let value = match parse_range(s, c + 1, b - 1) {
        Ok(v) => v,
        Err(e) => {
            return Some(Err(e));
        },
    };
    proof {
        assert(t.subrange(p - lo + 1, c - lo) =~= s@.subrange(p + 1, c as int));
        assert(t.subrange(c - lo + 1, b - lo - 1) =~= s@.subrange(c + 1, b - 1));
        assert(mapping_parts(t, key, value));
    }
    Some(Ok(ValueShape::Mapping(Box::new(key), Box::new(value))))
}

/// The field of a record body `s[lo..hi]` that a scan of `s[start..hi]` ends
/// at `end` is `s[start..end]`.
proof fn lemma_segment(s: Seq<char>, lo: int, hi: int, start: int, end: int)
    requires
        0 <= lo <= start <= end <= hi <= s.len(),
        first_top_level(s.subrange(start, hi), ',', end - start) || (no_top_level(
            s.subrange(start, hi),
            ',',
        ) && end == hi),
    ensures
        segment_end(s.subrange(lo, hi), start - lo, end - lo),
        s.subrange(lo, hi).subrange(start - lo, end - lo) == s.subrange(start, end),
{
    let u = s.subrange(lo, hi);
    assert(u.subrange(start - lo, u.len() as int) =~= s.subrange(start, hi));
    assert(u.subrange(start - lo, end - lo) =~= s.subrange(start, end));
}


/// The position of a field named `name`, if any.
fn find_name(fields: &Vec<(String, ValueShape)>, name: &String) -> (r: Option<usize>)
    ensures
        match r {
            Some(k) => k < fields@.len() && fields@[k as int].0@ == name@,
            None => forall|j: int| 0 <= j < fields@.len() ==> #[trigger] fields@[j].0@ != name@,
        },
{
    let mut k: usize = 0;
    while k < fields.len()
        invariant
            k <= fields.len(),
            forall|j: int| 0 <= j < k ==> #[trigger] fields@[j].0@ != name@,
        decreases fields.len() - k,
    {
        if fields[k].0 == *name {
            return Some(k);
        }
        k = k + 1;
    }
    None
}

/// Reads `s[a..b]`, which is wrapped in braces, as a record of
/// comma-separated `name: type` fields.
fn parse_record(s: &str, a: usize, b: usize) -> (r: Result<ValueShape, TypeParseError>)
    requires
        a + 2 <= b <= s@.len(),
    ensures
        r matches Ok(v) ==> (v matches ValueShape::Record(fs) && fields_well_named(fs@)
            && record_body(s@.subrange(a + 1, b - 1), fs@)),
        r matches Err(e) ==> record_fails(s@.subrange(a + 1, b - 1), e),
    decreases b - a, 0int,
{
    let lo = a + 1;
    let hi = b - 1;
    let ghost u = s@.subrange(lo as int, hi as int);
    let mut fields: Vec<(String, ValueShape)> = Vec::new();
    let (ta, tb) = trim_range(s, lo, hi);
    if ta == tb {
        assert(blank(u)) by {
            assert forall|j: int| 0 <= j < u.len() implies is_space(#[trigger] u[j]) by {
                assert(u[j] == s@[lo + j]);
            }
        }
        return Ok(ValueShape::Record(fields));
    }
    assert(!blank(u)) by {
        assert(u[ta - lo] == s@[ta as int]);
    }
    let mut start = lo;
    let ghost mut bs: Seq<int> = seq![0int];
    while start <= hi
        invariant
            a < lo <= start <= hi + 1,
            lo == a + 1,
            hi + 1 == b,
            b <= s@.len(),
            u == s@.subrange(lo as int, hi as int),
            !blank(u),
            fields_well_named(fields@),
            bs.len() == fields@.len() + 1,
            bs[0] == 0,
            bs[fields@.len() as int] == start - lo,
            forall|i: int|
                0 <= i < fields@.len() ==> 0 <= #[trigger] bs[i] < bs[i + 1] <= u.len() + 1
                    && segment_end(u, bs[i], bs[i + 1] - 1) && field_reads(
                    u.subrange(bs[i], bs[i + 1] - 1),
                    fields@[i],
                ),
        decreases hi + 1 - start,
    {
        let end = match find_top_level(s, start, hi, ',') {
            Some(c) => c,
            None => hi,
        };
        proof {
            lemma_segment(s@, lo as int, hi as int, start as int, end as int);
        }
        let field = match read_field(s, start, end, &fields) {
            Ok(f) => f,
            Err(e) => {
                assert(fails_at(u, fields@, bs, end - lo, e));
                return Err(e);
            },
        };
        let ghost before = fields@;
        let ghost old_bs = bs;
        proof {
            bs = bs.push(end + 1 - lo);
        }
        fields.push(field);
        assert(fields@ == before.push(field));
        assert(forall|i: int| 0 <= i < before.len() ==> fields@[i] == before[i]);
        assert(forall|i: int| 0 <= i < old_bs.len() ==> bs[i] == old_bs[i]);
        start = end + 1;
    }
    assert(body_bounds(u, fields@, bs));
    Ok(ValueShape::Record(fields))
}

/// Reads the record field `s[start..end]`, written `name: type`, after the
/// fields `fields`.
fn read_field(s: &str, start: usize, end: usize, fields: &Vec<(String, ValueShape)>) -> (r: Result<
    (String, ValueShape),
    TypeParseError,
>)
    requires
        start <= end <= s@.len(),
    ensures
        match r {
            Ok(f) => field_reads(s@.subrange(start as int, end as int), f) && is_ident(f.0@)
                && forall|j: int| 0 <= j < fields@.len() ==> #[trigger] fields@[j].0@ != f.0@,
            Err(e) => field_fails(s@.subrange(start as int, end as int), fields@, e),
        },
    decreases end - start, 2int,
{
    let ghost seg = s@.subrange(start as int, end as int);
    let colon = match find_top_level(s, start, end, ':') {
        Some(k) => k,
        None => {
            return Err(TypeParseError::Malformed);
        },
    };
    let (na, nb) = trim_range(s, start, colon);
    let ghost n = s@.subrange(na as int, nb as int);
    proof {
        lemma_trimmed_within(s@, start as int, colon as int, na as int, nb as int);
        assert(seg.subrange(0, colon - start) =~= s@.subrange(start as int, colon as int));
        assert(trims_to(seg.subrange(0, colon - start), n));
        assert(seg.subrange(colon - start + 1, seg.len() as int) =~= s@.subrange(
            colon + 1,
            end as int,
        ));
    }
    if !ident_range(s, na, nb) {
        return Err(TypeParseError::Malformed);
    }
    let name = s.substring_char(na, nb).to_string();
    match find_name(fields, &name) {
        Some(k) => {
            assert(fields@[k as int].0@ == n);
            return Err(TypeParseError::DuplicateField);
        },
        None => {},
    }
    let shape = match parse_range(s, colon + 1, end) {
        Ok(v) => v,
        Err(e) => {
            return Err(e);
        },
    };
    Ok((name, shape))
}

/// Reads a type annotation.
pub fn parse_type(raw: &str) -> (r: Result<ValueShape, TypeParseError>)
    ensures
        read_shape(raw@, r),
{
    let n = raw.unicode_len();
    assert(raw@.subrange(0, n as int) =~= raw@);
    parse_range(raw, 0, n)
}

/// The keyword that writes a primitive.
pub open spec fn primitive_text(p: Primitive) -> Seq<char> {
    match p {
        Primitive::Number => seq!['n', 'u', 'm', 'b', 'e', 'r'],
        Primitive::String => seq!['s', 't', 'r', 'i', 'n', 'g'],
        Primitive::Boolean => seq!['b', 'o', 'o', 'l', 'e', 'a', 'n'],
    }
}

/// A primitive keyword, `number`, `string` or `boolean` in any letter case,
/// reads as that primitive and never as a named type.
pub proof fn lemma_keyword_reads_primitive(t: Seq<char>, r: Result<ValueShape, TypeParseError>)
    requires
        read_shape(t, r),
        primitive_of(t) is Some,
    ensures
        r == Ok::<ValueShape, TypeParseError>(ValueShape::Primitive(primitive_of(t)->0)),
        !(r matches Ok(ValueShape::NamedType(_))),
{
}

/// A primitive written as its keyword reads back as the same primitive.
pub proof fn lemma_primitive_round_trip(p: Primitive, r: Result<ValueShape, TypeParseError>)
    requires
        read_from(primitive_text(p), r),
    ensures
        r == Ok::<ValueShape, TypeParseError>(ValueShape::Primitive(p)),
{
    let t = primitive_text(p);
    let n = seq!['n', 'u', 'm', 'b', 'e', 'r'];
    let st = seq!['s', 't', 'r', 'i', 'n', 'g'];
    let bo = seq!['b', 'o', 'o', 'l', 'e', 'a', 'n'];
    match p {
        Primitive::Number => {
            assert(ci_matches(t, n));
        },
        Primitive::String => {
            assert(!ci_eq(t[0], n[0]));
            assert(ci_matches(t, st));
        },
        Primitive::Boolean => {
            assert(!ci_eq(t[0], n[0]));
            assert(t.len() != st.len());
            assert(ci_matches(t, bo));
        },
    }
}

/// A bare name that is not a primitive keyword, written out and read back,
/// is a named type of the same name.
pub proof fn lemma_named_round_trip(n: Seq<char>, r: Result<ValueShape, TypeParseError>)
    requires
        is_ident(n),
        primitive_of(n) is None,
        read_from(n, r),
    ensures
        r matches Ok(ValueShape::NamedType(m)) && m@ == n,
{
    lemma_ident_balanced(n);
}

/// The number of fields of a record shape; zero for other shapes.
pub open spec fn rec_len(v: ValueShape) -> nat {
    match v {
        ValueShape::Record(fs) => fs@.len(),
        _ => 0,
    }
}

/// The text that writes a shape: a keyword, a name, `Object<K, V>`, or
/// `{name: T, ...}` with fields in order and `", "` between them.
pub open spec fn shape_text(v: ValueShape) -> Seq<char>
    decreases v, rec_len(v) + 1,
{
    match v {
        ValueShape::Primitive(p) => primitive_text(p),
        ValueShape::NamedType(n) => n@,
        ValueShape::Mapping(k, w) => "Object<"@ + shape_text(*k) + ", "@ + shape_text(*w) + ">"@,
        ValueShape::Record(fs) => "{"@ + fields_text(v, fs@.len() as int) + "}"@,
    }
}

/// The text of the first `i` fields of the record shape `v`.
pub open spec fn fields_text(v: ValueShape, i: int) -> Seq<char>
    decreases v, if i >= 0 {
        i as nat
    } else {
        0nat
    },
    via fields_text_decreases
{
    if v is Record && 0 < i <= rec_len(v) {
        let f = v->Record_0@[i - 1];
        fields_text(v, i - 1) + (if i > 1 {
            ", "@
        } else {
            Seq::empty()
        }) + f.0@ + ": "@ + shape_text(f.1)
    } else {
        Seq::empty()
    }
}

#[via_fn]
proof fn fields_text_decreases(v: ValueShape, i: int) {
    if v is Record && 0 < i <= rec_len(v) {
        let fs = v->Record_0;
        vstd::std_specs::vec::axiom_vec_index_decreases(fs, i - 1);
        assert(decreases_to!(v => fs));
        assert(decreases_to!(fs => fs[i - 1]));
        assert(decreases_to!(fs[i - 1] => fs[i - 1].1));
        assert(decreases_to!(v => fs@[i - 1].1));
    }
}

/// Writes a shape back as a type annotation, in the form that `parse_type` reads.
pub fn to_type_string(shape: &ValueShape) -> (r: String)
    ensures
        r@ == shape_text(*shape),
{
    let mut out = String::new();
    write_shape(shape, &mut out);
    assert(out@ =~= shape_text(*shape));
    out
}

fn write_shape(shape: &ValueShape, out: &mut String)
    ensures
        final(out)@ == old(out)@ + shape_text(*shape),
    decreases shape,
{
    proof {
        reveal_strlit("number");
        reveal_strlit("string");
        reveal_strlit("boolean");
        assert("number"@ =~= primitive_text(Primitive::Number));
        assert("string"@ =~= primitive_text(Primitive::String));
        assert("boolean"@ =~= primitive_text(Primitive::Boolean));
    }
    let ghost out0 = out@;
    match shape {
        ValueShape::Primitive(Primitive::Number) => out.append("number"),
        ValueShape::Primitive(Primitive::String) => out.append("string"),
        ValueShape::Primitive(Primitive::Boolean) => out.append("boolean"),
        ValueShape::NamedType(n) => out.append(n.as_str()),
        ValueShape::Mapping(k, v) => {
            out.append("Object<");
            write_shape(k, out);
            out.append(", ");
            write_shape(v, out);
            out.append(">");
            assert(out@ =~= out0 + shape_text(*shape));
        },
        ValueShape::Record(fs) => {
            out.append("{");
            let mut i: usize = 0;
            while i < fs.len()
                invariant
                    i <= fs.len(),
                    shape is Record,
                    shape->Record_0 == *fs,
                    out@ == out0 + "{"@ + fields_text(*shape, i as int),
                decreases fs.len() - i,
            {
                let ghost before = out@;
                if i > 0 {
                    out.append(", ");
                }
                out.append(fs[i].0.as_str());
                out.append(": ");
                proof {
                    vstd::std_specs::vec::axiom_vec_index_decreases(*fs, i as int);
                    assert(decreases_to!(*shape => shape->Record_0));
                    assert(decreases_to!(*fs => fs[i as int]));
                    assert(decreases_to!(fs[i as int] => fs[i as int].1));
                    assert(decreases_to!(*shape => fs[i as int].1));
                }
                write_shape(&fs[i].1, out);
                proof {
                    let f = fs@[i as int];
                    assert(fields_text(*shape, i + 1) == fields_text(*shape, i as int) + (if i + 1
                        > 1 {
                        ", "@
                    } else {
                        Seq::empty()
                    }) + f.0@ + ": "@ + shape_text(f.1));
                    assert(out@ =~= out0 + "{"@ + fields_text(*shape, i + 1));
                }
                i = i + 1;
            }
            out.append("}");
            assert(out@ =~= out0 + shape_text(*shape));
        },
    }
}

} // verus!
