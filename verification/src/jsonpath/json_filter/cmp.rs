use vstd::prelude::*;

verus! {

#[derive(Debug, PartialEq, Eq, Clone, Copy)]
pub enum CmpType {
    Eq,
    Ne,
    Gt,
    Ge,
    Lt,
    Le,
}

#[derive(Debug, PartialEq, Eq, Clone, Copy)]
pub enum CmpCondType {
    And,
    Or,
}

/// Lexicographic order on characters by code point, which for UTF-8 text
/// is the order of its bytes, the order of `String`.
pub open spec fn chars_lt(a: Seq<char>, b: Seq<char>) -> bool
    decreases a.len(),
{
    if a.len() == 0 {
        b.len() > 0
    } else if b.len() == 0 {
        false
    } else if a[0] != b[0] {
        (a[0] as int) < (b[0] as int)
    } else {
        chars_lt(a.drop_first(), b.drop_first())
    }
}

proof fn lemma_chars_lt_skip(a: Seq<char>, b: Seq<char>, i: int)
    requires
        0 <= i <= a.len(),
        i <= b.len(),
        a.take(i) == b.take(i),
    ensures
        chars_lt(a, b) == chars_lt(a.skip(i), b.skip(i)),
    decreases i,
{
    if i > 0 {
        assert(a[0] == a.take(i)[0]);
        assert(b[0] == b.take(i)[0]);
        assert(a.drop_first().take(i - 1) =~= a.take(i).drop_first());
        assert(b.drop_first().take(i - 1) =~= b.take(i).drop_first());
        lemma_chars_lt_skip(a.drop_first(), b.drop_first(), i - 1);
        assert(a.drop_first().skip(i - 1) =~= a.skip(i));
        assert(b.drop_first().skip(i - 1) =~= b.skip(i));
    } else {
        assert(a.skip(0) =~= a);
        assert(b.skip(0) =~= b);
    }
}

/// The order of strings is total: of two strings exactly one is smaller,
/// or they are equal. So `CmpEq`, `CmpLt` and `CmpGt` agree on every
/// pair, and `CmpGe` and `CmpLe` are the complements of `CmpLt` and
/// `CmpGt`.
pub proof fn law_string_order_total(a: Seq<char>, b: Seq<char>)
    ensures
        a == b ==> !chars_lt(a, b) && !chars_lt(b, a),
        a != b ==> chars_lt(a, b) != chars_lt(b, a),
    decreases a.len(),
{
    if a.len() > 0 && b.len() > 0 && a[0] == b[0] {
        law_string_order_total(a.drop_first(), b.drop_first());
        if a != b {
            assert(a.drop_first() != b.drop_first()) by {
                if a.drop_first() == b.drop_first() {
                    assert(a =~= seq![a[0]] + a.drop_first());
                    assert(b =~= seq![b[0]] + b.drop_first());
                }
            }
        }
    } else if a.len() == 0 && b.len() == 0 {
        assert(a =~= b);
    } else if a.len() > 0 && b.len() > 0 {
        assert((a[0] as int) != (b[0] as int));
    }
}

/// `a < b` on strings.
pub fn str_lt(a: &str, b: &str) -> (r: bool)
    ensures
        r == chars_lt(a@, b@),
{
    let n = a.unicode_len();
    let m = b.unicode_len();
    let mut i: usize = 0;
    while i < n && i < m
        invariant
            n == a@.len(),
            m == b@.len(),
            i <= n,
            i <= m,
            a@.take(i as int) == b@.take(i as int),
        decreases n - i,
    {
        let x = a.get_char(i);
        let y = b.get_char(i);
        if x != y {
            proof {
                lemma_chars_lt_skip(a@, b@, i as int);
                assert(a@.skip(i as int)[0] == x);
                assert(b@.skip(i as int)[0] == y);
            }
            return x < y;
        }
        assert(a@.take(i + 1) =~= a@.take(i as int).push(x));
        assert(b@.take(i + 1) =~= b@.take(i as int).push(y));
        i = i + 1;
    }
    proof {
        lemma_chars_lt_skip(a@, b@, i as int);
    }
    i == n && i < m
}

/// The comparisons of two values of one kind that a filter makes.
pub trait PrivCmp {
    /// What `cmp_bool` returns.
    spec fn bool_holds(&self, v1: bool, v2: bool) -> bool;

    /// What `cmp_string` returns.
    spec fn string_holds(&self, v1: Seq<char>, v2: Seq<char>) -> bool;

    fn cmp_bool(&self, v1: &bool, v2: &bool) -> (r: bool)
        ensures
            r == self.bool_holds(*v1, *v2),
    ;

    fn cmp_string(&self, v1: &String, v2: &String) -> (r: bool)
        ensures
            r == self.string_holds(v1@, v2@),
    ;
}

pub trait IntoType {
    /// What `into_type` returns.
    spec fn cmp_type(&self) -> CmpType;

    fn into_type(&self) -> (t: CmpType)
        ensures
            t == self.cmp_type(),
    ;
}

pub struct CmpEq;

impl PrivCmp for CmpEq {
    open spec fn bool_holds(&self, v1: bool, v2: bool) -> bool {
        v1 == v2
    }

    open spec fn string_holds(&self, v1: Seq<char>, v2: Seq<char>) -> bool {
        v1 == v2
    }

    fn cmp_bool(&self, v1: &bool, v2: &bool) -> (r: bool) {
        *v1 == *v2
    }

    fn cmp_string(&self, v1: &String, v2: &String) -> (r: bool) {
        v1.eq(v2)
    }
}

impl IntoType for CmpEq {
    open spec fn cmp_type(&self) -> CmpType {
        CmpType::Eq
    }

    fn into_type(&self) -> (t: CmpType) {
        CmpType::Eq
    }
}

pub struct CmpNe;

impl PrivCmp for CmpNe {
    open spec fn bool_holds(&self, v1: bool, v2: bool) -> bool {
        v1 != v2
    }

    open spec fn string_holds(&self, v1: Seq<char>, v2: Seq<char>) -> bool {
        v1 != v2
    }

    fn cmp_bool(&self, v1: &bool, v2: &bool) -> (r: bool) {
        *v1 != *v2
    }

    fn cmp_string(&self, v1: &String, v2: &String) -> (r: bool) {
        !v1.eq(v2)
    }
}

impl IntoType for CmpNe {
    open spec fn cmp_type(&self) -> CmpType {
        CmpType::Ne
    }

    fn into_type(&self) -> (t: CmpType) {
        CmpType::Ne
    }
}

pub struct CmpGt;

impl PrivCmp for CmpGt {
    open spec fn bool_holds(&self, v1: bool, v2: bool) -> bool {
        v1 && !v2
    }

    open spec fn string_holds(&self, v1: Seq<char>, v2: Seq<char>) -> bool {
        chars_lt(v2, v1)
    }

    fn cmp_bool(&self, v1: &bool, v2: &bool) -> (r: bool) {
        *v1 && !*v2
    }

    fn cmp_string(&self, v1: &String, v2: &String) -> (r: bool) {
        str_lt(v2.as_str(), v1.as_str())
    }
}

impl IntoType for CmpGt {
    open spec fn cmp_type(&self) -> CmpType {
        CmpType::Gt
    }

    fn into_type(&self) -> (t: CmpType) {
        CmpType::Gt
    }
}

pub struct CmpGe;

impl PrivCmp for CmpGe {
    open spec fn bool_holds(&self, v1: bool, v2: bool) -> bool {
        v1 || !v2
    }

    open spec fn string_holds(&self, v1: Seq<char>, v2: Seq<char>) -> bool {
        !chars_lt(v1, v2)
    }

    fn cmp_bool(&self, v1: &bool, v2: &bool) -> (r: bool) {
        *v1 || !*v2
    }

    fn cmp_string(&self, v1: &String, v2: &String) -> (r: bool) {
        !str_lt(v1.as_str(), v2.as_str())
    }
}

impl IntoType for CmpGe {
    open spec fn cmp_type(&self) -> CmpType {
        CmpType::Ge
    }

    fn into_type(&self) -> (t: CmpType) {
        CmpType::Ge
    }
}

pub struct CmpLt;

impl PrivCmp for CmpLt {
    open spec fn bool_holds(&self, v1: bool, v2: bool) -> bool {
        !v1 && v2
    }

    open spec fn string_holds(&self, v1: Seq<char>, v2: Seq<char>) -> bool {
        chars_lt(v1, v2)
    }

    fn cmp_bool(&self, v1: &bool, v2: &bool) -> (r: bool) {
        !*v1 && *v2
    }

    fn cmp_string(&self, v1: &String, v2: &String) -> (r: bool) {
        str_lt(v1.as_str(), v2.as_str())
    }
}

impl IntoType for CmpLt {
    open spec fn cmp_type(&self) -> CmpType {
        CmpType::Lt
    }

    fn into_type(&self) -> (t: CmpType) {
        CmpType::Lt
    }
}

pub struct CmpLe;

impl PrivCmp for CmpLe {
    open spec fn bool_holds(&self, v1: bool, v2: bool) -> bool {
        !v1 || v2
    }

    open spec fn string_holds(&self, v1: Seq<char>, v2: Seq<char>) -> bool {
        !chars_lt(v2, v1)
    }

    fn cmp_bool(&self, v1: &bool, v2: &bool) -> (r: bool) {
        !*v1 || *v2
    }

    fn cmp_string(&self, v1: &String, v2: &String) -> (r: bool) {
        !str_lt(v2.as_str(), v1.as_str())
    }
}

impl IntoType for CmpLe {
    open spec fn cmp_type(&self) -> CmpType {
        CmpType::Le
    }

    fn into_type(&self) -> (t: CmpType) {
        CmpType::Le
    }
}

pub struct CmpAnd;

impl PrivCmp for CmpAnd {
    open spec fn bool_holds(&self, v1: bool, v2: bool) -> bool {
        v1 && v2
    }

    open spec fn string_holds(&self, v1: Seq<char>, v2: Seq<char>) -> bool {
        v1.len() > 0 && v2.len() > 0
    }

    fn cmp_bool(&self, v1: &bool, v2: &bool) -> (r: bool) {
        *v1 && *v2
    }

    fn cmp_string(&self, v1: &String, v2: &String) -> (r: bool) {
        !v1.as_str().is_empty() && !v2.as_str().is_empty()
    }
}

pub struct CmpOr;

impl PrivCmp for CmpOr {
    open spec fn bool_holds(&self, v1: bool, v2: bool) -> bool {
        v1 || v2
    }

    open spec fn string_holds(&self, v1: Seq<char>, v2: Seq<char>) -> bool {
        v1.len() > 0 || v2.len() > 0
    }

    fn cmp_bool(&self, v1: &bool, v2: &bool) -> (r: bool) {
        *v1 || *v2
    }

    fn cmp_string(&self, v1: &String, v2: &String) -> (r: bool) {
        !v1.as_str().is_empty() || !v2.as_str().is_empty()
    }
}

} // verus!
