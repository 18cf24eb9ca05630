//! Character-level text utilities shared by the configuration model, the
//! TOML emitter and the `.topo` dump reader: code-point order on strings,
//! conversions between `String` and character vectors, decimal rendering
//! of integers and Unicode whitespace trimming.
use vstd::prelude::*;

verus! {

// --- code-point (lexicographic) order ----------------------------------

/// Lexicographic comparison of `a` and `b`, looking from position `i` on,
/// assuming both agree before `i`. Characters compare by code point, which
/// is exactly the order of Rust's `str`/`String` (UTF-8 preserves it).
pub open spec fn lex_lt_from(a: Seq<char>, b: Seq<char>, i: int) -> bool
    decreases a.len() - i,
{
    if i >= a.len() {
        i < b.len()
    } else if i >= b.len() {
        false
    } else if a[i] != b[i] {
        (a[i] as int) < (b[i] as int)
    } else {
        lex_lt_from(a, b, i + 1)
    }
}

/// `a` sorts strictly before `b`.
pub open spec fn lex_lt(a: Seq<char>, b: Seq<char>) -> bool {
    lex_lt_from(a, b, 0)
}

/// Strictly increasing in code-point order (hence free of duplicates).
pub open spec fn strictly_sorted(s: Seq<Seq<char>>) -> bool {
    forall|i: int, j: int| 0 <= i < j < s.len() ==> lex_lt(#[trigger] s[i], #[trigger] s[j])
}

/// `s` lists exactly the members of `members`, in increasing order.
pub open spec fn lists_sorted(s: Seq<Seq<char>>, members: Set<Seq<char>>) -> bool {
    &&& strictly_sorted(s)
    &&& forall|k: Seq<char>| #[trigger] members.contains(k) <==> s.contains(k)
}

proof fn lemma_lex_from_trichotomy(a: Seq<char>, b: Seq<char>, i: int)
    requires
        0 <= i <= a.len(),
        i <= b.len(),
        forall|j: int| 0 <= j < i ==> a[j] == b[j],
    ensures
        !(lex_lt_from(a, b, i) && lex_lt_from(b, a, i)),
        a != b ==> (lex_lt_from(a, b, i) || lex_lt_from(b, a, i)),
        a == b ==> !lex_lt_from(a, b, i),
    decreases a.len() - i,
{
    if i >= a.len() || i >= b.len() {
        if a.len() == b.len() {
            assert(a =~= b);
        }
    } else if a[i] != b[i] {
        let x = a[i] as int;
        let y = b[i] as int;
        assert(x != y);
    } else {
        lemma_lex_from_trichotomy(a, b, i + 1);
    }
}

proof fn lemma_lex_from_trans(a: Seq<char>, b: Seq<char>, c: Seq<char>, i: int)
    requires
        0 <= i <= a.len(),
        i <= b.len(),
        i <= c.len(),
        forall|j: int| 0 <= j < i ==> a[j] == b[j] && b[j] == c[j],
        lex_lt_from(a, b, i),
        lex_lt_from(b, c, i),
    ensures
        lex_lt_from(a, c, i),
    decreases a.len() - i,
{
    if i < a.len() && i < b.len() && i < c.len() && a[i] == b[i] && b[i] == c[i] {
        lemma_lex_from_trans(a, b, c, i + 1);
    }
}

/// The code-point order is a strict total order.
pub proof fn lemma_lex_order(a: Seq<char>, b: Seq<char>)
    ensures
        !lex_lt(a, a),
        !(lex_lt(a, b) && lex_lt(b, a)),
        a != b ==> (lex_lt(a, b) || lex_lt(b, a)),
{
    lemma_lex_from_trichotomy(a, b, 0);
    lemma_lex_from_trichotomy(a, a, 0);
}

/// Transitivity of the code-point order.
pub proof fn lemma_lex_trans(a: Seq<char>, b: Seq<char>, c: Seq<char>)
    requires
        lex_lt(a, b),
        lex_lt(b, c),
    ensures
        lex_lt(a, c),
{
    lemma_lex_from_trans(a, b, c, 0);
}

/// Two strictly sorted sequences with the same members are equal: a
/// sorted listing is determined by its member set.
pub proof fn lemma_sorted_listing_unique(s: Seq<Seq<char>>, t: Seq<Seq<char>>)
    requires
        strictly_sorted(s),
        strictly_sorted(t),
        forall|k: Seq<char>| s.contains(k) <==> t.contains(k),
    ensures
        s == t,
    decreases s.len() + t.len(),
{
    if s.len() == 0 {
        if t.len() > 0 {
            assert(t.contains(t[0]));
        }
        assert(s =~= t);
    } else if t.len() == 0 {
        assert(s.contains(s[0]));
    } else {
        // The first elements are both the minimum of the common member set.
        let x = s[0];
        let y = t[0];
        assert(s.contains(x));
        assert(t.contains(y));
        let i = choose|i: int| 0 <= i < s.len() && s[i] == y;
        let j = choose|j: int| 0 <= j < t.len() && t[j] == x;
        lemma_lex_order(x, y);
        if x != y {
            if lex_lt(x, y) {
                // y is t's minimum, yet x (in t) sorts before it
                assert(j > 0);
                assert(lex_lt(t[0], t[j]));
            } else {
                assert(i > 0);
                assert(lex_lt(s[0], s[i]));
            }
        }
        assert(x == y);
        let s1 = s.drop_first();
        let t1 = t.drop_first();
        assert forall|k: Seq<char>| s1.contains(k) implies t1.contains(k) by {
            let a = choose|a: int| 0 <= a < s1.len() && s1[a] == k;
            assert(s.contains(k)) by {
                assert(s[a + 1] == k);
            }
            let b = choose|b: int| 0 <= b < t.len() && t[b] == k;
            lemma_lex_order(s[0], k);
            assert(lex_lt(s[0], s[a + 1]));
            if b == 0 {
                assert(k == x);
            }
            assert(t1[b - 1] == k);
        }
        assert forall|k: Seq<char>| t1.contains(k) implies s1.contains(k) by {
            let a = choose|a: int| 0 <= a < t1.len() && t1[a] == k;
            assert(t.contains(k)) by {
                assert(t[a + 1] == k);
            }
            let b = choose|b: int| 0 <= b < s.len() && s[b] == k;
            lemma_lex_order(t[0], k);
            assert(lex_lt(t[0], t[a + 1]));
            if b == 0 {
                assert(k == y);
            }
            assert(s1[b - 1] == k);
        }
        lemma_sorted_listing_unique(s1, t1);
        assert(s =~= seq![x] + s1);
        assert(t =~= seq![y] + t1);
    }
}

/// The character sequences of a sequence of strings.
pub open spec fn views(v: Seq<String>) -> Seq<Seq<char>> {
    v.map_values(|s: String| s@)
}

/// Result of a three-way comparison.
#[derive(PartialEq, Eq, Debug, Clone, Copy, Structural)]
pub enum Cmp {
    Less,
    Equal,
    Greater,
}

/// Three-way code-point comparison of two character vectors.
pub fn compare_chars(a: &Vec<char>, b: &Vec<char>) -> (r: Cmp)
    ensures
        r == Cmp::Less <==> lex_lt(a@, b@),
        r == Cmp::Equal <==> a@ == b@,
        r == Cmp::Greater <==> lex_lt(b@, a@),
{
    proof {
        lemma_lex_order(a@, b@);
    }
    let mut i: usize = 0;
    while i < a.len() && i < b.len()
        invariant
            i <= a.len(),
            i <= b.len(),
            forall|j: int| 0 <= j < i ==> a@[j] == b@[j],
            lex_lt(a@, b@) == lex_lt_from(a@, b@, i as int),
            lex_lt(b@, a@) == lex_lt_from(b@, a@, i as int),
        decreases a.len() - i,
    {
        if a[i] != b[i] {
            if a[i] < b[i] {
                return Cmp::Less;
            } else {
                return Cmp::Greater;
            }
        }
        i += 1;
    }
    if a.len() == b.len() {
        assert(a@ =~= b@);
        Cmp::Equal
    } else if i == a.len() {
        Cmp::Less
    } else {
        Cmp::Greater
    }
}

/// Three-way code-point comparison of two strings.
pub fn compare_str(a: &str, b: &str) -> (r: Cmp)
    ensures
        r == Cmp::Less <==> lex_lt(a@, b@),
        r == Cmp::Equal <==> a@ == b@,
        r == Cmp::Greater <==> lex_lt(b@, a@),
{
    let x = chars_of(a);
    let y = chars_of(b);
    compare_chars(&x, &y)
}

/// Whether two strings hold the same characters.
pub fn str_eq(a: &str, b: &str) -> (r: bool)
    ensures
        r == (a@ == b@),
{
    compare_str(a, b) == Cmp::Equal
}

// --- String <-> characters ---------------------------------------------

/// Appends one character (std `String::push`).
#[verifier::external_body]
pub fn push_char(s: &mut String, c: char)
    ensures
        final(s)@ == old(s)@.push(c),
{
    s.push(c);
}

/// The characters of `s`, in order.
pub fn chars_of(s: &str) -> (v: Vec<char>)
    ensures
        v@ == s@,
{
    let mut v: Vec<char> = Vec::new();
    for c in it: s.chars()
        invariant
            v@ == it.seq().take(it.index() as int),
            it.seq() == s@,
    {
        v.push(c);
    }
    v
}

/// A `String` holding exactly the characters of `v`.
pub fn string_of(v: &Vec<char>) -> (s: String)
    ensures
        s@ == v@,
{
    let mut s = String::new();
    let mut i: usize = 0;
    while i < v.len()
        invariant
            i <= v.len(),
            s@ == v@.take(i as int),
        decreases v.len() - i,
    {
        push_char(&mut s, v[i]);
        assert(v@.take(i as int).push(v@[i as int]) == v@.take(i + 1));
        i += 1;
    }
    assert(v@.take(v.len() as int) =~= v@);
    s
}

/// A fresh `String` copy of a string slice.
pub fn owned(s: &str) -> (r: String)
    ensures
        r@ == s@,
{
    let v = chars_of(s);
    string_of(&v)
}

/// Appends the characters of `s` to `v`.
pub fn extend_str(v: &mut Vec<char>, s: &str)
    ensures
        final(v)@ == old(v)@ + s@,
{
    let w = chars_of(s);
    extend_chars(v, &w);
}

/// Appends the characters of `w` to `v`.
pub fn extend_chars(v: &mut Vec<char>, w: &Vec<char>)
    ensures
        final(v)@ == old(v)@ + w@,
{
    let ghost v0 = v@;
    let mut i: usize = 0;
    while i < w.len()
        invariant
            i <= w.len(),
            v@ == v0 + w@.take(i as int),
        decreases w.len() - i,
    {
        v.push(w[i]);
        assert(w@.take(i as int).push(w@[i as int]) == w@.take(i + 1));
        i += 1;
    }
    assert(w@.take(w.len() as int) =~= w@);
}

// --- searching ---------------------------------------------------------

/// Index of the first `c` in `s` at or after `i`, or `-1` when there is
/// none.
pub open spec fn find_from(s: Seq<char>, c: char, i: int) -> int
    decreases s.len() - i,
{
    if i >= s.len() {
        -1
    } else if s[i] == c {
        i
    } else {
        find_from(s, c, i + 1)
    }
}

/// Index of the first `c` in `s`, or `-1` when there is none.
pub open spec fn find_first(s: Seq<char>, c: char) -> int {
    find_from(s, c, 0)
}

proof fn lemma_find_from(s: Seq<char>, c: char, i: int)
    requires
        0 <= i,
    ensures
        find_from(s, c, i) == -1 || (i <= find_from(s, c, i) < s.len() && s[find_from(s, c, i)]
            == c),
        find_from(s, c, i) == -1 ==> forall|j: int| i <= j < s.len() ==> s[j] != c,
        find_from(s, c, i) != -1 ==> forall|j: int| i <= j < find_from(s, c, i) ==> s[j] != c,
    decreases s.len() - i,
{
    if i < s.len() && s[i] != c {
        lemma_find_from(s, c, i + 1);
    }
}

/// Characterises [`find_first`]: the first occurrence, or `-1`.
pub proof fn lemma_find_first(s: Seq<char>, c: char)
    ensures
        find_first(s, c) == -1 || (0 <= find_first(s, c) < s.len() && s[find_first(s, c)] == c),
        find_first(s, c) == -1 ==> !s.contains(c),
        forall|j: int| 0 <= j < find_first(s, c) ==> s[j] != c,
{
    lemma_find_from(s, c, 0);
}

/// Index of the first `c` in `v`.
pub fn find_char(v: &Vec<char>, c: char) -> (r: Option<usize>)
    ensures
        r is None <==> find_first(v@, c) == -1,
        r matches Some(i) ==> i == find_first(v@, c),
{
    let mut i: usize = 0;
    while i < v.len()
        invariant
            i <= v.len(),
            find_first(v@, c) == find_from(v@, c, i as int),
        decreases v.len() - i,
    {
        if v[i] == c {
            return Some(i);
        }
        i += 1;
    }
    None
}

/// The characters of `v` in `a..b`.
pub fn slice_chars(v: &Vec<char>, a: usize, b: usize) -> (r: Vec<char>)
    requires
        a <= b <= v@.len(),
    ensures
        r@ == v@.subrange(a as int, b as int),
{
    let mut r: Vec<char> = Vec::new();
    let mut i: usize = a;
    while i < b
        invariant
            a <= i <= b,
            b <= v@.len(),
            r@ == v@.subrange(a as int, i as int),
        decreases b - i,
    {
        r.push(v[i]);
        assert(v@.subrange(a as int, i as int).push(v@[i as int]) == v@.subrange(a as int, i + 1));
        i += 1;
    }
    r
}

// --- decimal rendering --------------------------------------------------

/// The decimal digit character for `d` (`0 <= d < 10`).
pub open spec fn digit_char(d: int) -> char {
    if d == 0 {
        '0'
    } else if d == 1 {
        '1'
    } else if d == 2 {
        '2'
    } else if d == 3 {
        '3'
    } else if d == 4 {
        '4'
    } else if d == 5 {
        '5'
    } else if d == 6 {
        '6'
    } else if d == 7 {
        '7'
    } else if d == 8 {
        '8'
    } else {
        '9'
    }
}

/// Decimal digits of a natural number, most significant first, without
/// leading zeros (`0` is `"0"`).
pub open spec fn decimal(n: nat) -> Seq<char>
    decreases n,
{
    if n < 10 {
        seq![digit_char(n as int)]
    } else {
        decimal(n / 10).push(digit_char((n % 10) as int))
    }
}

/// Decimal text of an integer, with a leading `-` when negative — what
/// `i64::to_string` prints.
pub open spec fn int_text(i: int) -> Seq<char> {
    if i < 0 {
        seq!['-'] + decimal((-i) as nat)
    } else {
        decimal(i as nat)
    }
}

fn digit(d: u64) -> (c: char)
    requires
        d < 10,
    ensures
        c == digit_char(d as int),
{
    if d == 0 {
        '0'
    } else if d == 1 {
        '1'
    } else if d == 2 {
        '2'
    } else if d == 3 {
        '3'
    } else if d == 4 {
        '4'
    } else if d == 5 {
        '5'
    } else if d == 6 {
        '6'
    } else if d == 7 {
        '7'
    } else if d == 8 {
        '8'
    } else {
        '9'
    }
}

fn push_decimal(v: &mut Vec<char>, n: u64)
    ensures
        final(v)@ == old(v)@ + decimal(n as nat),
    decreases n,
{
    if n < 10 {
        v.push(digit(n));
    } else {
        push_decimal(v, n / 10);
        v.push(digit(n % 10));
    }
}

/// Appends the decimal text of `i` to `v`.
pub fn push_int(v: &mut Vec<char>, i: i64)
    ensures
        final(v)@ == old(v)@ + int_text(i as int),
{
    if i < 0 {
        v.push('-');
        let m: u64 = if i == i64::MIN {
            9223372036854775808u64
        } else {
            (-i) as u64
        };
        push_decimal(v, m);
    } else {
        push_decimal(v, i as u64);
    }
}

// --- whitespace ---------------------------------------------------------

/// Unicode `White_Space`, the set `char::is_whitespace` tests.
pub open spec fn is_space(c: char) -> bool {
    let x = c as int;
    ||| 0x9 <= x <= 0xd
    ||| x == 0x20
    ||| x == 0x85
    ||| x == 0xa0
    ||| x == 0x1680
    ||| 0x2000 <= x <= 0x200a
    ||| x == 0x2028
    ||| x == 0x2029
    ||| x == 0x202f
    ||| x == 0x205f
    ||| x == 0x3000
}

/// Executable [`is_space`].
pub fn space_char(c: char) -> (r: bool)
    ensures
        r == is_space(c),
{
    let x = c as u32;
    (0x9 <= x && x <= 0xd) || x == 0x20 || x == 0x85 || x == 0xa0 || x == 0x1680 || (0x2000 <= x
        && x <= 0x200a) || x == 0x2028 || x == 0x2029 || x == 0x202f || x == 0x205f || x == 0x3000
}

/// Number of leading whitespace characters of `s`.
pub open spec fn lead_spaces(s: Seq<char>) -> nat
    decreases s.len(),
{
    if s.len() > 0 && is_space(s[0]) {
        1 + lead_spaces(s.drop_first())
    } else {
        0
    }
}

/// Number of trailing whitespace characters of `s`.
pub open spec fn trail_spaces(s: Seq<char>) -> nat
    decreases s.len(),
{
    if s.len() > 0 && is_space(s.last()) {
        1 + trail_spaces(s.drop_last())
    } else {
        0
    }
}

/// `s` without leading whitespace (`str::trim_start`).
pub open spec fn trim_start(s: Seq<char>) -> Seq<char> {
    s.skip(lead_spaces(s) as int)
}

/// `s` without trailing whitespace (`str::trim_end`).
pub open spec fn trim_end(s: Seq<char>) -> Seq<char> {
    s.take(s.len() - trail_spaces(s))
}

/// `s` without leading and trailing whitespace (`str::trim`).
pub open spec fn trim(s: Seq<char>) -> Seq<char> {
    trim_end(trim_start(s))
}

proof fn lemma_lead_spaces_bound(s: Seq<char>)
    ensures
        lead_spaces(s) <= s.len(),
        forall|j: int| 0 <= j < lead_spaces(s) ==> is_space(#[trigger] s[j]),
        lead_spaces(s) < s.len() ==> !is_space(s[lead_spaces(s) as int]),
    decreases s.len(),
{
    if s.len() > 0 && is_space(s[0]) {
        lemma_lead_spaces_bound(s.drop_first());
        assert forall|j: int| 0 <= j < lead_spaces(s) implies is_space(#[trigger] s[j]) by {
            if j > 0 {
                assert(s[j] == s.drop_first()[j - 1]);
            }
        }
    }
}

proof fn lemma_trail_spaces_bound(s: Seq<char>)
    ensures
        trail_spaces(s) <= s.len(),
        trail_spaces(s) < s.len() ==> !is_space(s[s.len() - trail_spaces(s) - 1]),
        forall|j: int| s.len() - trail_spaces(s) <= j < s.len() ==> is_space(#[trigger] s[j]),
    decreases s.len(),
{
    if s.len() > 0 && is_space(s.last()) {
        lemma_trail_spaces_bound(s.drop_last());
        assert forall|j: int| s.len() - trail_spaces(s) <= j < s.len() implies is_space(
            #[trigger] s[j],
        ) by {
            if j < s.len() - 1 {
                assert(s[j] == s.drop_last()[j]);
            }
        }
    }
}

proof fn lemma_lead_spaces_exact(s: Seq<char>, n: int)
    requires
        0 <= n <= s.len(),
        forall|j: int| 0 <= j < n ==> is_space(#[trigger] s[j]),
        n < s.len() ==> !is_space(s[n]),
    ensures
        lead_spaces(s) == n,
    decreases n,
{
    if n > 0 {
        assert forall|j: int| 0 <= j < n - 1 implies is_space(#[trigger] s.drop_first()[j]) by {
            assert(s.drop_first()[j] == s[j + 1]);
        }
        if n < s.len() {
            assert(s.drop_first()[n - 1] == s[n]);
        }
        lemma_lead_spaces_exact(s.drop_first(), n - 1);
    }
}

proof fn lemma_trail_spaces_exact(s: Seq<char>, n: int)
    requires
        0 <= n <= s.len(),
        forall|j: int| s.len() - n <= j < s.len() ==> is_space(#[trigger] s[j]),
        n < s.len() ==> !is_space(s[s.len() - n - 1]),
    ensures
        trail_spaces(s) == n,
    decreases n,
{
    if n > 0 {
        let t = s.drop_last();
        assert forall|j: int| t.len() - (n - 1) <= j < t.len() implies is_space(#[trigger] t[j]) by {
            assert(t[j] == s[j]);
        }
        if n < s.len() {
            assert(t[t.len() - (n - 1) - 1] == s[s.len() - n - 1]);
        }
        lemma_trail_spaces_exact(t, n - 1);
    }
}

/// The characters of `v` without leading and trailing whitespace.
pub fn trim_chars(v: &Vec<char>) -> (r: Vec<char>)
    ensures
        r@ == trim(v@),
{
    let mut a: usize = 0;
    while a < v.len() && space_char(v[a])
        invariant
            a <= v.len(),
            forall|j: int| 0 <= j < a ==> is_space(#[trigger] v@[j]),
        decreases v.len() - a,
    {
        a += 1;
    }
    proof {
        lemma_lead_spaces_exact(v@, a as int);
    }
    let ghost t = v@.skip(a as int);
    let mut b: usize = v.len();
    while b > a && space_char(v[b - 1])
        invariant
            a <= b <= v.len(),
            forall|j: int| b <= j < v.len() ==> is_space(#[trigger] v@[j]),
        decreases b,
    {
        b -= 1;
    }
    proof {
        assert forall|j: int| t.len() - (v.len() - b) <= j < t.len() implies is_space(
            #[trigger] t[j],
        ) by {
            assert(t[j] == v@[j + a]);
        }
        if b > a {
            assert(t[t.len() - (v.len() - b) - 1] == v@[b - 1]);
        }
        lemma_trail_spaces_exact(t, (v.len() - b) as int);
    }
    let mut r: Vec<char> = Vec::new();
    let mut i: usize = a;
    while i < b
        invariant
            a <= i <= b,
            b <= v.len(),
            r@ == v@.subrange(a as int, i as int),
        decreases b - i,
    {
        r.push(v[i]);
        assert(v@.subrange(a as int, i as int).push(v@[i as int]) == v@.subrange(
            a as int,
            i + 1,
        ));
        i += 1;
    }
    assert(r@ =~= trim(v@));
    r
}

/// A text that neither begins nor ends with whitespace is its own trim.
pub proof fn lemma_trim_unpadded(s: Seq<char>)
    requires
        s.len() > 0,
        !is_space(s[0]),
        !is_space(s[s.len() - 1]),
    ensures
        trim(s) == s,
{
    lemma_lead_spaces_exact(s, 0);
    assert(trim_start(s) =~= s);
    lemma_trail_spaces_exact(s, 0);
    assert(trim(s) =~= s);
}

/// Trimming leaves nothing exactly when every character is whitespace.
pub proof fn lemma_trim_empty(s: Seq<char>)
    ensures
        trim(s).len() == 0 <==> forall|j: int| 0 <= j < s.len() ==> is_space(#[trigger] s[j]),
{
    lemma_lead_spaces_bound(s);
    let t = trim_start(s);
    lemma_trail_spaces_bound(t);
    if forall|j: int| 0 <= j < s.len() ==> is_space(#[trigger] s[j]) {
        lemma_lead_spaces_exact(s, s.len() as int);
    }
    if trim(s).len() == 0 && lead_spaces(s) < s.len() {
        assert(t[0] == s[lead_spaces(s) as int]);
        assert(is_space(t[0]));
    }
}

/// A text without surrounding whitespace keeps that form when padded:
/// trimming whitespace put before and after it gives the text back.
pub proof fn lemma_trim_padded(pre: Seq<char>, s: Seq<char>, post: Seq<char>)
    requires
        trim(s) == s,
        forall|j: int| 0 <= j < pre.len() ==> is_space(#[trigger] pre[j]),
        forall|j: int| 0 <= j < post.len() ==> is_space(#[trigger] post[j]),
    ensures
        trim(pre + s + post) == s,
{
    let u = pre + s + post;
    lemma_lead_spaces_bound(s);
    lemma_trail_spaces_bound(s.skip(lead_spaces(s) as int));
    if s.len() == 0 {
        assert forall|j: int| 0 <= j < u.len() implies is_space(#[trigger] u[j]) by {
            if j < pre.len() {
                assert(u[j] == pre[j]);
            } else {
                assert(u[j] == post[j - pre.len()]);
            }
        }
        lemma_lead_spaces_exact(u, u.len() as int);
        assert(trim_start(u) =~= Seq::<char>::empty());
        assert(trim(u) =~= s);
    } else {
        assert(trim(s).len() == s.len() - lead_spaces(s) - trail_spaces(s.skip(lead_spaces(s) as int)));
        assert(lead_spaces(s) == 0);
        assert(s.skip(0) =~= s);
        assert(!is_space(s[0]));
        assert(trail_spaces(s) == 0);
        assert(!is_space(s[s.len() - 1]));
        assert forall|j: int| 0 <= j < pre.len() implies is_space(#[trigger] u[j]) by {
            assert(u[j] == pre[j]);
        }
        assert(u[pre.len() as int] == s[0]);
        lemma_lead_spaces_exact(u, pre.len() as int);
        let v = trim_start(u);
        assert(v =~= s + post);
        assert forall|j: int| v.len() - post.len() <= j < v.len() implies is_space(#[trigger] v[j]) by {
            assert(v[j] == post[j - s.len()]);
        }
        assert(v[v.len() - post.len() - 1] == s[s.len() - 1]);
        lemma_trail_spaces_exact(v, post.len() as int);
        assert(trim(u) =~= s);
    }
}


// --- splitting ------------------------------------------------------------

/// The pieces of `s` between occurrences of `c` (`str::split`): `a,b`
/// gives `a` and `b`; no `c` gives `s` itself.
pub open spec fn pieces(s: Seq<char>, c: char) -> Seq<Seq<char>>
    decreases s.len(),
{
    let i = find_first(s, c);
    if i < 0 || i >= s.len() {
        seq![s]
    } else {
        seq![s.take(i)] + pieces(s.skip(i + 1), c)
    }
}

/// A character occurs in `a + b` exactly when it occurs in `a` or in `b`.
pub proof fn lemma_contains_concat(a: Seq<char>, b: Seq<char>, c: char)
    ensures
        (a + b).contains(c) <==> a.contains(c) || b.contains(c),
{
    let u = a + b;
    if u.contains(c) {
        let k = choose|k: int| 0 <= k < u.len() && u[k] == c;
        if k < a.len() {
            assert(a[k] == c);
        } else {
            assert(b[k - a.len()] == c);
        }
    }
    if a.contains(c) {
        let k = choose|k: int| 0 <= k < a.len() && a[k] == c;
        assert(u[k] == c);
    }
    if b.contains(c) {
        let k = choose|k: int| 0 <= k < b.len() && b[k] == c;
        assert(u[k + a.len()] == c);
    }
}

/// The first `c` of `a + b` is the first of `a` when `a` has one.
proof fn lemma_find_first_prefix(a: Seq<char>, b: Seq<char>, c: char)
    requires
        a.contains(c),
    ensures
        find_first(a + b, c) == find_first(a, c),
{
    let u = a + b;
    lemma_find_first(a, c);
    lemma_find_first(u, c);
    let i = find_first(a, c);
    let k = find_first(u, c);
    assert(u[i] == c);
    if k < i {
        assert(u[k] == a[k]);
    }
}

/// When `a` has no `c`, the first `c` of `a + [c] + b` is the one right
/// after `a`.
pub proof fn lemma_find_first_after(a: Seq<char>, b: Seq<char>, c: char)
    requires
        !a.contains(c),
    ensures
        find_first(a + seq![c] + b, c) == a.len(),
{
    let u = a + seq![c] + b;
    lemma_find_first(u, c);
    let k = find_first(u, c);
    assert(u[a.len() as int] == c);
    if 0 <= k < a.len() {
        assert(a[k] == u[k]);
    }
}

/// A text without `c` is a single piece.
pub proof fn lemma_pieces_single(x: Seq<char>, c: char)
    requires
        !x.contains(c),
    ensures
        pieces(x, c) == seq![x],
{
    lemma_find_first(x, c);
    if find_first(x, c) != -1 {
        assert(x[find_first(x, c)] == c);
    }
}

/// Splitting at every `c` splits the texts on each side of one `c` apart.
pub proof fn lemma_pieces_concat(x: Seq<char>, y: Seq<char>, c: char)
    ensures
        pieces(x + seq![c] + y, c) == pieces(x, c) + pieces(y, c),
    decreases x.len(),
{
    let u = x + seq![c] + y;
    if x.contains(c) {
        lemma_find_first(x, c);
        let i = find_first(x, c);
        assert(u =~= x + (seq![c] + y));
        lemma_find_first_prefix(x, seq![c] + y, c);
        assert(u.take(i) =~= x.take(i));
        assert(u.skip(i + 1) =~= x.skip(i + 1) + seq![c] + y);
        lemma_pieces_concat(x.skip(i + 1), y, c);
        assert(pieces(u, c) =~= pieces(x, c) + pieces(y, c));
    } else {
        lemma_find_first_after(x, y, c);
        assert(u.take(x.len() as int) =~= x);
        assert(u.skip(x.len() as int + 1) =~= y);
        lemma_pieces_single(x, c);
        assert(pieces(u, c) =~= pieces(x, c) + pieces(y, c));
    }
}

/// The character sequences of a sequence of character vectors.
pub open spec fn char_views(v: Seq<Vec<char>>) -> Seq<Seq<char>> {
    v.map_values(|x: Vec<char>| x@)
}

/// Copy of a character vector.
pub fn copy_chars(v: &Vec<char>) -> (r: Vec<char>)
    ensures
        r@ == v@,
{
    let r = slice_chars(v, 0, v.len());
    assert(v@.subrange(0, v@.len() as int) =~= v@);
    r
}

/// The pieces of `v` between occurrences of `c`.
pub fn split_on(v: &Vec<char>, c: char) -> (r: Vec<Vec<char>>)
    ensures
        char_views(r@) == pieces(v@, c),
    decreases v@.len(),
{
    proof {
        lemma_find_first(v@, c);
    }
    match find_char(v, c) {
        None => {
            let mut r: Vec<Vec<char>> = Vec::new();
            r.push(copy_chars(v));
            assert(char_views(r@) =~= seq![v@]);
            r
        },
        Some(i) => {
            let len = v.len();
            assert(i < len);
            let head = slice_chars(v, 0, i);
            let tail = slice_chars(v, i + 1, len);
            let mut rest = split_on(&tail, c);
            let mut r: Vec<Vec<char>> = Vec::new();
            r.push(head);
            let ghost rv = rest@;
            r.append(&mut rest);
            assert(head@ =~= v@.take(i as int));
            assert(tail@ =~= v@.skip(i + 1));
            assert(char_views(r@) =~= seq![v@.take(i as int)] + char_views(rv));
            r
        },
    }
}


// --- more searching --------------------------------------------------------

/// Index of the last `c` in the first `n` characters of `s`, or `-1`.
pub open spec fn find_last_in(s: Seq<char>, c: char, n: int) -> int
    decreases n,
{
    if n <= 0 || n > s.len() {
        -1
    } else if s[n - 1] == c {
        n - 1
    } else {
        find_last_in(s, c, n - 1)
    }
}

/// Index of the last `c` in `s`, or `-1` when there is none.
pub open spec fn find_last(s: Seq<char>, c: char) -> int {
    find_last_in(s, c, s.len() as int)
}

/// Characterises [`find_last_in`].
pub proof fn lemma_find_last_in(s: Seq<char>, c: char, n: int)
    requires
        0 <= n <= s.len(),
    ensures
        -1 <= find_last_in(s, c, n) < n,
        find_last_in(s, c, n) >= 0 ==> s[find_last_in(s, c, n)] == c,
        forall|j: int| find_last_in(s, c, n) < j < n ==> s[j] != c,
    decreases n,
{
    if n > 0 && s[n - 1] != c {
        lemma_find_last_in(s, c, n - 1);
    }
}

/// Index of the last `c` in `v`.
pub fn rfind_char(v: &Vec<char>, c: char) -> (r: Option<usize>)
    ensures
        r is None <==> find_last(v@, c) == -1,
        r matches Some(i) ==> i == find_last(v@, c),
{
    let mut i: usize = v.len();
    while i > 0
        invariant
            i <= v@.len(),
            find_last(v@, c) == find_last_in(v@, c, i as int),
        decreases i,
    {
        if v[i - 1] == c {
            return Some(i - 1);
        }
        i -= 1;
    }
    None
}

/// Index of the first `a` immediately followed by `b` in `s` at or after
/// `i`, or `-1`.
pub open spec fn find_pair_from(s: Seq<char>, a: char, b: char, i: int) -> int
    decreases s.len() - i,
{
    if i < 0 || i + 1 >= s.len() {
        -1
    } else if s[i] == a && s[i + 1] == b {
        i
    } else {
        find_pair_from(s, a, b, i + 1)
    }
}

/// Index of the first `a` immediately followed by `b` in `s`, or `-1`.
pub open spec fn find_pair(s: Seq<char>, a: char, b: char) -> int {
    find_pair_from(s, a, b, 0)
}

/// Characterises [`find_pair_from`].
pub proof fn lemma_find_pair_from(s: Seq<char>, a: char, b: char, i: int)
    requires
        0 <= i,
    ensures
        find_pair_from(s, a, b, i) == -1 || (i <= find_pair_from(s, a, b, i) && find_pair_from(s, a, b, i) + 1 < s.len()),
    decreases s.len() - i,
{
    if i + 1 < s.len() && !(s[i] == a && s[i + 1] == b) {
        lemma_find_pair_from(s, a, b, i + 1);
    }
}

/// Index of the first `a` immediately followed by `b` in `v`.
pub fn find_pair_chars(v: &Vec<char>, a: char, b: char) -> (r: Option<usize>)
    ensures
        r is None <==> find_pair(v@, a, b) == -1,
        r matches Some(i) ==> i == find_pair(v@, a, b) && i + 1 < v@.len(),
{
    proof {
        lemma_find_pair_from(v@, a, b, 0);
    }
    let mut i: usize = 0;
    while i < v.len() && i + 1 < v.len()
        invariant
            i <= v@.len(),
            find_pair(v@, a, b) == find_pair_from(v@, a, b, i as int),
        decreases v.len() - i,
    {
        if v[i] == a && v[i + 1] == b {
            return Some(i);
        }
        i += 1;
    }
    None
}

/// Index of the last whitespace character of `s`, or `-1`.
pub open spec fn last_space_in(s: Seq<char>, n: int) -> int
    decreases n,
{
    if n <= 0 || n > s.len() {
        -1
    } else if is_space(s[n - 1]) {
        n - 1
    } else {
        last_space_in(s, n - 1)
    }
}

/// Index of the last whitespace character of `s`, or `-1`.
pub open spec fn last_space(s: Seq<char>) -> int {
    last_space_in(s, s.len() as int)
}

/// Index of the last whitespace character of `v`.
pub fn rfind_space(v: &Vec<char>) -> (r: Option<usize>)
    ensures
        r is None <==> last_space(v@) == -1,
        r matches Some(i) ==> i == last_space(v@) && i < v@.len(),
{
    let mut i: usize = v.len();
    while i > 0
        invariant
            i <= v@.len(),
            last_space(v@) == last_space_in(v@, i as int),
        decreases i,
    {
        if space_char(v[i - 1]) {
            return Some(i - 1);
        }
        i -= 1;
    }
    None
}

/// `s` begins with `p`.
pub open spec fn starts_with(s: Seq<char>, p: Seq<char>) -> bool {
    s.len() >= p.len() && s.take(p.len() as int) == p
}

/// Whether `v` begins with the characters of `p`.
pub fn starts_with_chars(v: &Vec<char>, p: &str) -> (r: bool)
    ensures
        r == starts_with(v@, p@),
{
    let w = chars_of(p);
    if w.len() > v.len() {
        return false;
    }
    let mut i: usize = 0;
    while i < w.len()
        invariant
            w@ == p@,
            w@.len() <= v@.len(),
            i <= w@.len(),
            forall|j: int| 0 <= j < i ==> v@[j] == w@[j],
        decreases w.len() - i,
    {
        if v[i] != w[i] {
            assert(v@.take(w@.len() as int)[i as int] != w@[i as int]);
            return false;
        }
        i += 1;
    }
    assert(v@.take(w@.len() as int) =~= w@);
    true
}

/// The characters of `s` before the first `c` (all of `s` without one).
pub open spec fn before_first(s: Seq<char>, c: char) -> Seq<char> {
    if find_first(s, c) < 0 {
        s
    } else {
        s.take(find_first(s, c))
    }
}


/// No NUL character occurs in `s` (it can be passed on as a C string).
pub open spec fn nul_free(s: Seq<char>) -> bool {
    !s.contains('\0')
}

} // verus!
