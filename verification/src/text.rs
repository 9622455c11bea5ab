//! Text helpers shared by the compiler, the diagnostics and the command line:
//! decimal rendering and parsing of integers, and string building.

use vstd::prelude::*;

verus! {

/// The character of a decimal digit `d` (`d < 10`).
pub open spec fn digit_char(d: nat) -> char {
    if d == 0 {
        '0'
    } else if d == 1 {
        '1'
    } else if d == 2 {
        '2'
    } else if d == 3 {
        '3'
    } else if d == 4 {
        '4'
    } else if d == 5 {
        '5'
    } else if d == 6 {
        '6'
    } else if d == 7 {
        '7'
    } else if d == 8 {
        '8'
    } else {
        '9'
    }
}

/// The shortest decimal spelling of `n`, without sign or leading zeros.
pub open spec fn decimal(n: nat) -> Seq<char>
    decreases n,
{
    if n < 10 {
        seq![digit_char(n)]
    } else {
        decimal(n / 10).push(digit_char(n % 10))
    }
}

/// The one-character string of a decimal digit.
fn digit_str(d: u64) -> (r: &'static str)
    requires
        d < 10,
    ensures
        r@ == seq![digit_char(d as nat)],
{
    if d == 0 {
        proof { reveal_strlit("0"); }
        "0"
    } else if d == 1 {
        proof { reveal_strlit("1"); }
        "1"
    } else if d == 2 {
        proof { reveal_strlit("2"); }
        "2"
    } else if d == 3 {
        proof { reveal_strlit("3"); }
        "3"
    } else if d == 4 {
        proof { reveal_strlit("4"); }
        "4"
    } else if d == 5 {
        proof { reveal_strlit("5"); }
        "5"
    } else if d == 6 {
        proof { reveal_strlit("6"); }
        "6"
    } else if d == 7 {
        proof { reveal_strlit("7"); }
        "7"
    } else if d == 8 {
        proof { reveal_strlit("8"); }
        "8"
    } else {
        proof { reveal_strlit("9"); }
        "9"
    }
}

/// Renders `v` in decimal.
pub fn decimal_string(v: u64) -> (r: String)
    ensures
        r@ == decimal(v as nat),
    decreases v,
{
    if v < 10 {
        String::from_str(digit_str(v))
    } else {
        let mut s = decimal_string(v / 10);
        s.append(digit_str(v % 10));
        s
    }
}

/// Whether `c` is one of the ASCII digits `0` to `9` (code points 48 to 57).
pub open spec fn is_ascii_digit(c: char) -> bool {
    48 <= (c as u32) <= 57
}

/// The value of an ASCII digit.
pub open spec fn digit_value(c: char) -> nat {
    ((c as u32) - 48) as nat
}

pub open spec fn all_ascii_digits(s: Seq<char>) -> bool {
    forall|i: int| 0 <= i < s.len() ==> is_ascii_digit(#[trigger] s[i])
}

/// The number that a sequence of decimal digits spells, most significant first.
pub open spec fn digits_value(s: Seq<char>) -> nat
    decreases s.len(),
{
    if s.len() == 0 {
        0
    } else {
        digits_value(s.drop_last()) * 10 + digit_value(s.last())
    }
}

/// The digits after an optional leading `+`.
pub open spec fn unsigned_body(t: Seq<char>) -> Seq<char> {
    if t.len() > 0 && t[0] == '+' {
        t.skip(1)
    } else {
        t
    }
}

/// What `str::parse::<u64>` accepts: an optional `+` followed by one or more
/// ASCII digits whose value fits in a `u64`.
pub open spec fn spec_parse_u64(t: Seq<char>) -> Option<u64> {
    let body = unsigned_body(t);
    if body.len() > 0 && all_ascii_digits(body) && digits_value(body) <= u64::MAX {
        Some(digits_value(body) as u64)
    } else {
        None
    }
}

/// What `str::parse::<i64>` accepts: an optional `+` or `-` followed by one or
/// more ASCII digits whose signed value fits in an `i64`.
pub open spec fn spec_parse_i64(t: Seq<char>) -> Option<i64> {
    if t.len() > 0 && t[0] == '-' {
        let body = t.skip(1);
        if body.len() > 0 && all_ascii_digits(body) && digits_value(body) <= 0x8000_0000_0000_0000 {
            Some((0 - digits_value(body)) as i64)
        } else {
            None
        }
    } else {
        let body = unsigned_body(t);
        if body.len() > 0 && all_ascii_digits(body) && digits_value(body) <= i64::MAX {
            Some(digits_value(body) as i64)
        } else {
            None
        }
    }
}

proof fn lemma_digits_value_prefix_grows(s: Seq<char>, k: int)
    requires
        0 <= k <= s.len(),
    ensures
        digits_value(s.take(k)) <= digits_value(s),
    decreases s.len(),
{
    if k < s.len() {
        lemma_digits_value_prefix_grows(s.drop_last(), k);
        assert(s.drop_last().take(k) =~= s.take(k));
    } else {
        assert(s.take(k) =~= s);
    }
}

/// Reads the decimal digits of `text` from character `start` on, stopping with
/// `None` once the value passes `limit` or a non-digit appears.
fn parse_digits(text: &str, start: usize, limit: u64) -> (r: Option<u64>)
    requires
        start <= text@.len(),
        limit >= 9,
    ensures
        ({
            let body = text@.skip(start as int);
            match r {
                Some(v) => body.len() > 0 && all_ascii_digits(body) && digits_value(body) <= limit
                    && v == digits_value(body),
                None => !(body.len() > 0 && all_ascii_digits(body) && digits_value(body) <= limit),
            }
        }),
{
    let n = text.unicode_len();
    let ghost body = text@.skip(start as int);
    if start == n {
        return None;
    }
    let mut acc: u64 = 0;
    let mut i: usize = start;
    while i < n
        invariant
            start <= i <= n,
            n == text@.len(),
            body == text@.skip(start as int),
            all_ascii_digits(body.take(i - start)),
            acc as nat == digits_value(body.take(i - start)),
            acc <= limit,
            limit >= 9,
        decreases n - i,
    {
        let c = text.get_char(i);
        let code = c as u32;
        let ghost prefix = body.take(i - start);
        let ghost next = body.take(i + 1 - start);
        assert(next.drop_last() =~= prefix);
        assert(next.last() == c);
        if code < 48 || code > 57 {
            assert(!is_ascii_digit(body[i - start]));
            return None;
        }
        let d = (code - 48) as u64;
        assert(digits_value(next) == acc * 10 + d);
        if acc > (limit - d) / 10 {
            assert(acc * 10 + d > limit) by (nonlinear_arith)
                requires
                    acc > (limit - d) / 10,
                    d <= 9,
                    d <= limit,
            ;
            proof {
                lemma_digits_value_prefix_grows(body, i + 1 - start);
            }
            return None;
        }
        assert(acc * 10 + d <= limit) by (nonlinear_arith)
            requires
                acc <= (limit - d) / 10,
                d <= 9,
        ;
        acc = acc * 10 + d;
        i = i + 1;
        assert forall|j: int| 0 <= j < next.len() implies is_ascii_digit(#[trigger] next[j]) by {
            if j < prefix.len() {
                assert(next[j] == prefix[j]);
            }
        }
    }
    assert(body.take(n - start) =~= body);
    Some(acc)
}

/// Parses an unsigned decimal integer the way `str::parse::<u64>` does.
pub fn parse_u64(text: &str) -> (r: Option<u64>)
    ensures
        r == spec_parse_u64(text@),
{
    let n = text.unicode_len();
    let start: usize = if n > 0 && text.get_char(0) == '+' { 1 } else { 0 };
    assert(unsigned_body(text@) =~= text@.skip(start as int));
    parse_digits(text, start, u64::MAX)
}

/// Parses a signed decimal integer the way `str::parse::<i64>` does.
pub fn parse_i64(text: &str) -> (r: Option<i64>)
    ensures
        r == spec_parse_i64(text@),
{
    let n = text.unicode_len();
    if n > 0 && text.get_char(0) == '-' {
        match parse_digits(text, 1, 0x8000_0000_0000_0000) {
            Some(m) => {
                if m == 0x8000_0000_0000_0000 {
                    Some(i64::MIN)
                } else {
                    Some(-(m as i64))
                }
            },
            None => None,
        }
    } else {
        let start: usize = if n > 0 && text.get_char(0) == '+' { 1 } else { 0 };
        assert(unsigned_body(text@) =~= text@.skip(start as int));
        match parse_digits(text, start, i64::MAX as u64) {
            Some(m) => Some(m as i64),
            None => None,
        }
    }
}

/// Whether two strings hold the same characters.
pub fn str_eq(a: &str, b: &str) -> (r: bool)
    ensures
        r == (a@ == b@),
{
    let n = a.unicode_len();
    if n != b.unicode_len() {
        return false;
    }
    let mut i: usize = 0;
    while i < n
        invariant
            0 <= i <= n,
            n == a@.len(),
            n == b@.len(),
            forall|j: int| 0 <= j < i ==> a@[j] == b@[j],
        decreases n - i,
    {
        if a.get_char(i) != b.get_char(i) {
            return false;
        }
        i = i + 1;
    }
    assert(a@ =~= b@);
    true
}

/// Whether `a` comes before `b` in the order of `str`'s `Ord`: character by
/// character by code point, a proper prefix first.
pub open spec fn lex_lt(a: Seq<char>, b: Seq<char>) -> bool
    decreases a.len(),
{
    if a.len() == 0 {
        b.len() > 0
    } else if b.len() == 0 {
        false
    } else if a[0] < b[0] {
        true
    } else if a[0] > b[0] {
        false
    } else {
        lex_lt(a.skip(1), b.skip(1))
    }
}

pub proof fn lemma_lex_irreflexive(a: Seq<char>)
    ensures
        !lex_lt(a, a),
    decreases a.len(),
{
    if a.len() > 0 {
        lemma_lex_irreflexive(a.skip(1));
    }
}

pub proof fn lemma_lex_asymmetric(a: Seq<char>, b: Seq<char>)
    ensures
        !(lex_lt(a, b) && lex_lt(b, a)),
    decreases a.len(),
{
    if a.len() > 0 && b.len() > 0 && a[0] == b[0] {
        lemma_lex_asymmetric(a.skip(1), b.skip(1));
    }
}

pub proof fn lemma_lex_transitive(a: Seq<char>, b: Seq<char>, c: Seq<char>)
    requires
        lex_lt(a, b),
        lex_lt(b, c),
    ensures
        lex_lt(a, c),
    decreases a.len(),
{
    if a.len() > 0 && b.len() > 0 && c.len() > 0 && a[0] == b[0] && b[0] == c[0] {
        lemma_lex_transitive(a.skip(1), b.skip(1), c.skip(1));
    }
}

pub proof fn lemma_lex_total(a: Seq<char>, b: Seq<char>)
    requires
        a != b,
    ensures
        lex_lt(a, b) || lex_lt(b, a),
    decreases a.len(),
{
    if a.len() > 0 && b.len() > 0 && a[0] == b[0] {
        if a.skip(1) == b.skip(1) {
            assert(a =~= seq![a[0]] + a.skip(1));
            assert(b =~= seq![b[0]] + b.skip(1));
        }
        lemma_lex_total(a.skip(1), b.skip(1));
    } else if a.len() == 0 && b.len() == 0 {
        assert(a =~= b);
    }
}

/// Compares two strings the way `str`'s `<` does.
pub fn str_lt(a: &str, b: &str) -> (r: bool)
    ensures
        r == lex_lt(a@, b@),
{
    let n = a.unicode_len();
    let m = b.unicode_len();
    let mut i: usize = 0;
    assert(a@.skip(0) =~= a@);
    assert(b@.skip(0) =~= b@);
    while i < n && i < m
        invariant
            0 <= i <= n,
            i <= m,
            n == a@.len(),
            m == b@.len(),
            lex_lt(a@, b@) == lex_lt(a@.skip(i as int), b@.skip(i as int)),
        decreases n - i,
    {
        let x = a.get_char(i);
        let y = b.get_char(i);
        assert(a@.skip(i as int)[0] == a@[i as int]);
        assert(b@.skip(i as int)[0] == b@[i as int]);
        if x < y {
            return true;
        }
        if x > y {
            return false;
        }
        assert(a@.skip(i as int).skip(1) =~= a@.skip(i + 1));
        assert(b@.skip(i as int).skip(1) =~= b@.skip(i + 1));
        i = i + 1;
    }
    i == n && i < m
}

/// Each name comes strictly before every later one.
pub open spec fn strictly_sorted(names: Seq<Seq<char>>) -> bool {
    forall|i: int, j: int| 0 <= i < j < names.len() ==> lex_lt(#[trigger] names[i], #[trigger] names[j])
}

/// The set of names a list holds.
pub open spec fn name_set(names: Seq<Seq<char>>) -> Set<Seq<char>> {
    Set::new(|x: Seq<char>| names.contains(x))
}

/// The names of a finite set in increasing order, each once.
pub open spec fn sorted_names(s: Set<Seq<char>>) -> Seq<Seq<char>> {
    choose|names: Seq<Seq<char>>| strictly_sorted(names) && name_set(names) == s
}

/// Two strictly sorted lists that hold the same names are equal.
pub proof fn lemma_sorted_unique(a: Seq<Seq<char>>, b: Seq<Seq<char>>)
    requires
        strictly_sorted(a),
        strictly_sorted(b),
        name_set(a) == name_set(b),
    ensures
        a == b,
    decreases a.len(),
{
    if a.len() == 0 {
        if b.len() > 0 {
            assert(name_set(b).contains(b[0]));
            assert(!a.contains(b[0]));
        }
        assert(a =~= b);
    } else {
        if b.len() == 0 {
            assert(name_set(a).contains(a[0]));
        }
        assert(name_set(a).contains(a[0]));
        assert(name_set(b).contains(b[0]));
        let k = choose|k: int| 0 <= k < b.len() && b[k] == a[0];
        let m = choose|m: int| 0 <= m < a.len() && a[m] == b[0];
        if k > 0 {
            assert(lex_lt(b[0], b[k]));
            if m == 0 {
                lemma_lex_irreflexive(a[0]);
            } else {
                assert(lex_lt(a[0], a[m]));
                lemma_lex_asymmetric(a[0], b[0]);
            }
        }
        assert(a[0] == b[0]);
        let ta = a.skip(1);
        let tb = b.skip(1);
        assert(strictly_sorted(ta)) by {
            assert forall|i: int, j: int| 0 <= i < j < ta.len() implies lex_lt(#[trigger] ta[i], #[trigger] ta[j]) by {
                assert(ta[i] == a[i + 1] && ta[j] == a[j + 1]);
            }
        }
        assert(strictly_sorted(tb)) by {
            assert forall|i: int, j: int| 0 <= i < j < tb.len() implies lex_lt(#[trigger] tb[i], #[trigger] tb[j]) by {
                assert(tb[i] == b[i + 1] && tb[j] == b[j + 1]);
            }
        }
        assert(name_set(ta) =~= name_set(tb)) by {
            assert forall|x: Seq<char>| name_set(ta).contains(x) implies name_set(tb).contains(x) by {
                let i = choose|i: int| 0 <= i < ta.len() && ta[i] == x;
                assert(a.contains(x)) by {
                    assert(a[i + 1] == x);
                }
                assert(name_set(a).contains(x));
                assert(name_set(b).contains(x));
                assert(b.contains(x));
                let j = choose|j: int| 0 <= j < b.len() && b[j] == x;
                if j == 0 {
                    assert(lex_lt(a[0], a[i + 1]));
                    lemma_lex_irreflexive(x);
                }
                assert(tb[j - 1] == x);
            }
            assert forall|x: Seq<char>| name_set(tb).contains(x) implies name_set(ta).contains(x) by {
                let i = choose|i: int| 0 <= i < tb.len() && tb[i] == x;
                assert(b.contains(x)) by {
                    assert(b[i + 1] == x);
                }
                assert(name_set(b).contains(x));
                assert(name_set(a).contains(x));
                assert(a.contains(x));
                let j = choose|j: int| 0 <= j < a.len() && a[j] == x;
                if j == 0 {
                    assert(lex_lt(b[0], b[i + 1]));
                    lemma_lex_irreflexive(x);
                }
                assert(ta[j - 1] == x);
            }
        }
        lemma_sorted_unique(ta, tb);
        assert(a =~= seq![a[0]] + ta);
        assert(b =~= seq![b[0]] + tb);
    }
}

/// A strictly sorted list is the sorted list of its own names.
pub proof fn lemma_sorted_names_of(names: Seq<Seq<char>>)
    requires
        strictly_sorted(names),
    ensures
        sorted_names(name_set(names)) == names,
{
    let s = name_set(names);
    assert(exists|l: Seq<Seq<char>>| strictly_sorted(l) && name_set(l) == s);
    let chosen = sorted_names(s);
    lemma_sorted_unique(chosen, names);
}

/// The views of a list of strings.
pub open spec fn string_views(v: Seq<String>) -> Seq<Seq<char>> {
    v.map_values(|s: String| s@)
}

/// Where `name` belongs in a strictly sorted list of names: every name before
/// the position is smaller, and none from it on is. Found by binary search.
pub fn sorted_position(names: &Vec<String>, name: &str) -> (p: usize)
    requires
        strictly_sorted(string_views(names@)),
    ensures
        p <= names.len(),
        forall|q: int| 0 <= q < p ==> lex_lt(#[trigger] string_views(names@)[q], name@),
        forall|q: int| p <= q < names.len() ==> !lex_lt(#[trigger] string_views(names@)[q], name@),
{
    let ghost all = string_views(names@);
    let mut lo: usize = 0;
    let mut hi: usize = names.len();
    while lo < hi
        invariant
            0 <= lo <= hi <= names.len(),
            all == string_views(names@),
            all.len() == names.len(),
            strictly_sorted(all),
            forall|q: int| 0 <= q < lo ==> lex_lt(#[trigger] all[q], name@),
            forall|q: int| hi <= q < names.len() ==> !lex_lt(#[trigger] all[q], name@),
        decreases hi - lo,
    {
        let mid = lo + (hi - lo) / 2;
        assert(all[mid as int] == names@[mid as int]@);
        if str_lt(names[mid].as_str(), name) {
            assert forall|q: int| 0 <= q < mid + 1 implies lex_lt(#[trigger] all[q], name@) by {
                if q < mid {
                    lemma_lex_transitive(all[q], all[mid as int], name@);
                }
            }
            lo = mid + 1;
        } else {
            assert forall|q: int| mid <= q < names.len() implies !lex_lt(#[trigger] all[q], name@) by {
                if q > mid && lex_lt(all[q], name@) {
                    assert(lex_lt(all[mid as int], all[q]));
                    lemma_lex_transitive(all[mid as int], all[q], name@);
                }
            }
            hi = mid;
        }
    }
    lo
}

/// Whether a strictly sorted list of names holds `name`, by binary search.
pub fn sorted_contains(names: &Vec<String>, name: &str) -> (r: bool)
    requires
        strictly_sorted(string_views(names@)),
    ensures
        r == name_set(string_views(names@)).contains(name@),
{
    let ghost all = string_views(names@);
    let p = sorted_position(names, name);
    if p < names.len() && str_eq(names[p].as_str(), name) {
        assert(all[p as int] == name@);
        assert(all.contains(name@));
        true
    } else {
        proof {
            if all.contains(name@) {
                let q = choose|q: int| 0 <= q < all.len() && all[q] == name@;
                lemma_lex_irreflexive(name@);
                if q >= p {
                    assert(all[p as int] == names@[p as int]@);
                    if q > p {
                        assert(lex_lt(all[p as int], all[q]));
                        lemma_lex_total(all[p as int], name@);
                    }
                }
            }
        }
        false
    }
}

/// Adds `name` to a strictly sorted list of names, keeping it strictly sorted.
pub fn insert_name(names: &mut Vec<String>, name: String)
    requires
        strictly_sorted(string_views(old(names)@)),
    ensures
        strictly_sorted(string_views(final(names)@)),
        name_set(string_views(final(names)@)) == name_set(string_views(old(names)@)).insert(name@),
{
    let ghost before = string_views(names@);
    let p = sorted_position(names, name.as_str());
    if p < names.len() {
        assert(before[p as int] == names@[p as int]@);
        if str_eq(names[p].as_str(), name.as_str()) {
            assert(name_set(before) =~= name_set(before).insert(name@));
            return;
        }
        proof {
            lemma_lex_total(before[p as int], name@);
        }
    }
    names.insert(p, name);
    proof {
        let after = string_views(names@);
        assert(after =~= before.insert(p as int, name@));
        assert forall|i: int, j: int| 0 <= i < j < after.len() implies lex_lt(#[trigger] after[i], #[trigger] after[j]) by {
            if j < p {
                assert(after[i] == before[i] && after[j] == before[j]);
            } else if j == p {
                assert(after[i] == before[i]);
            } else if i == p {
                assert(after[j] == before[j - 1]);
                if j - 1 > p {
                    lemma_lex_transitive(name@, before[p as int], before[j - 1]);
                }
            } else if i < p {
                assert(after[i] == before[i] && after[j] == before[j - 1]);
            } else {
                assert(after[i] == before[i - 1] && after[j] == before[j - 1]);
            }
        }
        assert(name_set(after) =~= name_set(before).insert(name@)) by {
            assert forall|x: Seq<char>| name_set(after).contains(x) implies name_set(before).insert(name@).contains(x) by {
                let i = choose|i: int| 0 <= i < after.len() && after[i] == x;
                if i < p {
                    assert(before[i] == x);
                } else if i > p {
                    assert(before[i - 1] == x);
                }
            }
            assert forall|x: Seq<char>| name_set(before).insert(name@).contains(x) implies name_set(after).contains(x) by {
                if x == name@ {
                    assert(after[p as int] == x);
                } else {
                    let i = choose|i: int| 0 <= i < before.len() && before[i] == x;
                    if i < p {
                        assert(after[i] == x);
                    } else {
                        assert(after[i + 1] == x);
                    }
                }
            }
        }
    }
}

/// A finite nonempty set of names has a least element.
proof fn lemma_least_name(s: Set<Seq<char>>) -> (m: Seq<char>)
    requires
        s.finite(),
        s.len() > 0,
    ensures
        s.contains(m),
        forall|x: Seq<char>| #[trigger] s.contains(x) && x != m ==> lex_lt(m, x),
    decreases s.len(),
{
    let x = s.choose();
    let rest = s.remove(x);
    if rest.len() == 0 {
        assert forall|y: Seq<char>| #[trigger] s.contains(y) && y != x implies lex_lt(x, y) by {
            assert(rest.contains(y));
        }
        x
    } else {
        let m = lemma_least_name(rest);
        if lex_lt(x, m) {
            assert forall|y: Seq<char>| #[trigger] s.contains(y) && y != x implies lex_lt(x, y) by {
                assert(rest.contains(y));
                if y != m {
                    lemma_lex_transitive(x, m, y);
                }
            }
            x
        } else {
            lemma_lex_total(x, m);
            assert forall|y: Seq<char>| #[trigger] s.contains(y) && y != m implies lex_lt(m, y) by {
                if y != x {
                    assert(rest.contains(y));
                }
            }
            m
        }
    }
}

/// Every finite set of names has a sorted list of its names.
pub proof fn lemma_sorted_names(s: Set<Seq<char>>)
    requires
        s.finite(),
    ensures
        strictly_sorted(sorted_names(s)),
        name_set(sorted_names(s)) == s,
    decreases s.len(),
{
    if s.len() == 0 {
        let l: Seq<Seq<char>> = Seq::empty();
        assert(name_set(l) =~= s);
        assert(strictly_sorted(l) && name_set(l) == s);
    } else {
        let m = lemma_least_name(s);
        let rest = s.remove(m);
        lemma_sorted_names(rest);
        let tail = sorted_names(rest);
        let l = seq![m] + tail;
        assert(strictly_sorted(l)) by {
            assert forall|i: int, j: int| 0 <= i < j < l.len() implies lex_lt(#[trigger] l[i], #[trigger] l[j]) by {
                if i == 0 {
                    assert(l[j] == tail[j - 1]);
                    assert(name_set(tail).contains(tail[j - 1]));
                    assert(rest.contains(l[j]));
                } else {
                    assert(l[i] == tail[i - 1] && l[j] == tail[j - 1]);
                }
            }
        }
        assert(name_set(l) =~= s) by {
            assert forall|x: Seq<char>| name_set(l).contains(x) implies s.contains(x) by {
                let i = choose|i: int| 0 <= i < l.len() && l[i] == x;
                if i > 0 {
                    assert(tail[i - 1] == x);
                    assert(name_set(tail).contains(x));
                }
            }
            assert forall|x: Seq<char>| s.contains(x) implies name_set(l).contains(x) by {
                if x == m {
                    assert(l[0] == x);
                } else {
                    assert(rest.contains(x));
                    assert(name_set(tail).contains(x));
                    let i = choose|i: int| 0 <= i < tail.len() && tail[i] == x;
                    assert(l[i + 1] == x);
                }
            }
        }
        assert(strictly_sorted(l) && name_set(l) == s);
    }
}

} // verus!
