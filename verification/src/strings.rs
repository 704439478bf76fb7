use vstd::prelude::*;

verus! {

/// Lexicographic order on character sequences, comparing characters by
/// code point. It is the order of Rust's `str`, whose byte order agrees with
/// code point order.
pub open spec fn seq_lt_from(a: Seq<char>, b: Seq<char>, i: int) -> bool
    decreases a.len() - i,
{
    if i < 0 || i >= a.len() {
        0 <= i < b.len()
    } else if i >= b.len() {
        false
    } else if a[i] != b[i] {
        a[i] < b[i]
    } else {
        seq_lt_from(a, b, i + 1)
    }
}

/// `a` sorts strictly before `b`.
pub open spec fn seq_lt(a: Seq<char>, b: Seq<char>) -> bool {
    seq_lt_from(a, b, 0)
}

proof fn lemma_seq_lt_from_irreflexive(a: Seq<char>, i: int)
    requires
        0 <= i,
    ensures
        !seq_lt_from(a, a, i),
    decreases a.len() - i,
{
    if i < a.len() {
        lemma_seq_lt_from_irreflexive(a, i + 1);
    }
}

proof fn lemma_seq_lt_from_transitive(a: Seq<char>, b: Seq<char>, c: Seq<char>, i: int)
    requires
        0 <= i,
        seq_lt_from(a, b, i),
        seq_lt_from(b, c, i),
    ensures
        seq_lt_from(a, c, i),
    decreases a.len() - i,
{
    if i < a.len() && i < b.len() && i < c.len() && a[i] == b[i] && b[i] == c[i] {
        lemma_seq_lt_from_transitive(a, b, c, i + 1);
    }
}

proof fn lemma_seq_lt_from_total(a: Seq<char>, b: Seq<char>, i: int)
    requires
        0 <= i <= a.len(),
        i <= b.len(),
        forall|j: int| 0 <= j < i ==> a[j] == b[j],
        a != b,
    ensures
        seq_lt_from(a, b, i) || seq_lt_from(b, a, i),
    decreases a.len() - i,
{
    if i == a.len() && i == b.len() {
        assert(a =~= b);
    } else if i < a.len() && i < b.len() && a[i] == b[i] {
        lemma_seq_lt_from_total(a, b, i + 1);
    }
}

/// `seq_lt` is a strict total order: irreflexive, transitive, and any two
/// different sequences are ordered one way or the other.
pub proof fn lemma_seq_lt_order(a: Seq<char>, b: Seq<char>, c: Seq<char>)
    ensures
        !seq_lt(a, a),
        seq_lt(a, b) && seq_lt(b, c) ==> seq_lt(a, c),
        a != b ==> seq_lt(a, b) || seq_lt(b, a),
{
    lemma_seq_lt_from_irreflexive(a, 0);
    if seq_lt(a, b) && seq_lt(b, c) {
        lemma_seq_lt_from_transitive(a, b, c, 0);
    }
    if a != b {
        lemma_seq_lt_from_total(a, b, 0);
    }
}

/// Character-by-character equality of two strings.
pub fn str_equal(a: &str, b: &str) -> (r: bool)
    ensures
        r == (a@ == b@),
{
    let n = a.unicode_len();
    let m = b.unicode_len();
    if n != m {
        return false;
    }
    let mut i: usize = 0;
    while i < n
        invariant
            i <= n,
            n == a@.len(),
            m == b@.len(),
            n == m,
            forall|j: int| 0 <= j < i ==> a@[j] == b@[j],
        decreases n - i,
    {
        if a.get_char(i) != b.get_char(i) {
            return false;
        }
        i = i + 1;
    }
    assert(a@ =~= b@);
    true
}

/// Whether `a` sorts strictly before `b`.
pub fn str_less(a: &str, b: &str) -> (r: bool)
    ensures
        r == seq_lt(a@, b@),
{
    let n = a.unicode_len();
    let m = b.unicode_len();
    let mut i: usize = 0;
    while i < n && i < m
        invariant
            i <= n,
            i <= m,
            n == a@.len(),
            m == b@.len(),
            seq_lt(a@, b@) == seq_lt_from(a@, b@, i as int),
        decreases n - i,
    {
        let x = a.get_char(i);
        let y = b.get_char(i);
        if x != y {
            return x < y;
        }
        i = i + 1;
    }
    i < m && i >= n
}

} // verus!

verus! {

/// `String::push`: appends one character.
#[verifier::external_body]
pub(crate) fn push_char(s: &mut String, c: char)
    ensures
        final(s)@ == old(s)@.push(c),
{
    s.push(c);
}

/// Appends the characters of `t`.
pub fn push_str(s: &mut String, t: &str)
    ensures
        final(s)@ == old(s)@ + t@,
{
    s.append(t);
}

/// A new `String` holding the characters of `t`.
pub fn to_string(t: &str) -> (r: String)
    ensures
        r@ == t@,
{
    t.to_owned()
}

/// The pieces of `s` between occurrences of `c`, as `str::split(c)` yields
/// them: one more piece than there are occurrences, empty pieces included.
pub open spec fn split_char(s: Seq<char>, c: char) -> Seq<Seq<char>>
    decreases s.len(),
{
    if s.len() == 0 {
        seq![Seq::<char>::empty()]
    } else {
        let prev = split_char(s.drop_last(), c);
        if s.last() == c {
            prev.push(Seq::<char>::empty())
        } else {
            prev.update(prev.len() - 1, prev.last().push(s.last()))
        }
    }
}

pub proof fn lemma_split_char_nonempty(s: Seq<char>, c: char)
    ensures
        split_char(s, c).len() >= 1,
    decreases s.len(),
{
    if s.len() > 0 {
        lemma_split_char_nonempty(s.drop_last(), c);
    }
}

/// Split `s` at every `c`, as `s.split(c)` does.
pub fn split_at_char(s: &str, c: char) -> (r: Vec<String>)
    ensures
        r@.map_values(|p: String| p@) == split_char(s@, c),
{
    let n = s.unicode_len();
    let mut pieces: Vec<String> = Vec::new();
    let mut cur = String::new();
    let mut i: usize = 0;
    while i < n
        invariant
            i <= n,
            n == s@.len(),
            pieces@.map_values(|p: String| p@).push(cur@) == split_char(s@.take(i as int), c),
        decreases n - i,
    {
        let ch = s.get_char(i);
        proof {
            assert(s@.take(i + 1).drop_last() =~= s@.take(i as int));
            lemma_split_char_nonempty(s@.take(i as int), c);
        }
        if ch == c {
            let ghost old_pieces = pieces@;
            pieces.push(cur);
            cur = String::new();
            proof {
                assert(pieces@.map_values(|p: String| p@) =~= old_pieces.map_values(|p: String| p@).push(
                    old_pieces.map_values(|p: String| p@).push(
                        split_char(s@.take(i as int), c).last(),
                    ).last(),
                ));
                assert(pieces@.map_values(|p: String| p@).push(cur@) =~= split_char(
                    s@.take(i + 1),
                    c,
                ));
            }
        } else {
            let ghost old_cur = cur@;
            push_char(&mut cur, ch);
            proof {
                assert(pieces@.map_values(|p: String| p@).push(cur@) =~= split_char(
                    s@.take(i + 1),
                    c,
                ));
            }
        }
        i = i + 1;
    }
    proof {
        assert(s@.take(n as int) =~= s@);
    }
    let ghost before = pieces@;
    pieces.push(cur);
    proof {
        assert(pieces@.map_values(|p: String| p@) =~= before.map_values(|p: String| p@).push(
            cur@,
        ));
    }
    pieces
}

/// Index of the first `c` in `s`.
pub open spec fn find_char_from(s: Seq<char>, c: char, i: int) -> Option<int>
    decreases s.len() - i,
{
    if i < 0 || i >= s.len() {
        None
    } else if s[i] == c {
        Some(i)
    } else {
        find_char_from(s, c, i + 1)
    }
}

pub open spec fn find_char(s: Seq<char>, c: char) -> Option<int> {
    find_char_from(s, c, 0)
}

pub proof fn lemma_find_char_from(s: Seq<char>, c: char, i: int)
    requires
        0 <= i <= s.len(),
    ensures
        find_char_from(s, c, i) matches Some(j) ==> i <= j < s.len() && s[j] == c && forall|l: int|
            i <= l < j ==> s[l] != c,
        find_char_from(s, c, i) is None ==> forall|l: int| i <= l < s.len() ==> s[l] != c,
    decreases s.len() - i,
{
    if i < s.len() {
        lemma_find_char_from(s, c, i + 1);
    }
}

pub proof fn lemma_find_char(s: Seq<char>, c: char)
    ensures
        find_char(s, c) matches Some(j) ==> 0 <= j < s.len() && s[j] == c && forall|l: int|
            0 <= l < j ==> s[l] != c,
        find_char(s, c) is None <==> !s.contains(c),
{
    lemma_find_char_from(s, c, 0);
    if find_char(s, c) is None {
        if s.contains(c) {
            let k = choose|k: int| 0 <= k < s.len() && s[k] == c;
        }
    } else {
        let j = find_char(s, c)->0;
        assert(s[j] == c);
    }
}

/// Position of the first `c` in `s`, counted in characters.
pub fn find_char_index(s: &str, c: char) -> (r: Option<usize>)
    ensures
        r matches Some(i) ==> find_char(s@, c) == Some(i as int),
        r is None ==> find_char(s@, c) is None,
{
    let n = s.unicode_len();
    let mut i: usize = 0;
    while i < n
        invariant
            i <= n,
            n == s@.len(),
            find_char(s@, c) == find_char_from(s@, c, i as int),
        decreases n - i,
    {
        if s.get_char(i) == c {
            return Some(i);
        }
        i = i + 1;
    }
    None
}

/// The value of a string of decimal digits.
pub open spec fn digits_value(s: Seq<char>) -> nat
    decreases s.len(),
{
    if s.len() == 0 {
        0
    } else {
        digits_value(s.drop_last()) * 10 + ((s.last() as u32) - ('0' as u32)) as nat
    }
}

pub open spec fn is_digit(c: char) -> bool {
    '0' <= c && c <= '9'
}

/// The digits of an unsigned number: `s` without one leading `+`.
pub open spec fn unsigned_digits(s: Seq<char>) -> Seq<char> {
    if s.len() > 0 && s[0] == '+' {
        s.drop_first()
    } else {
        s
    }
}

pub open spec fn all_digits(d: Seq<char>) -> bool {
    forall|i: int| 0 <= i < d.len() ==> is_digit(#[trigger] d[i])
}

/// `str::parse::<usize>`: an optional `+`, then one or more decimal digits,
/// of a value that fits in `usize`.
pub open spec fn parse_usize(s: Seq<char>) -> Option<usize> {
    let digits = unsigned_digits(s);
    if digits.len() == 0 || !all_digits(digits) {
        None
    } else if digits_value(digits) > usize::MAX {
        None
    } else {
        Some(digits_value(digits) as usize)
    }
}

/// Parse `s` as a `usize`, as `s.parse::<usize>().ok()` does.
pub fn parse_usize_str(s: &str) -> (r: Option<usize>)
    ensures
        r == parse_usize(s@),
{
    let n = s.unicode_len();
    let start: usize = if n > 0 && s.get_char(0) == '+' { 1 } else { 0 };
    let ghost digits = unsigned_digits(s@);
    assert(digits =~= s@.subrange(start as int, n as int));
    if start == n {
        return None;
    }
    let mut value: usize = 0;
    let mut i: usize = start;
    let mut overflow = false;
    while i < n
        invariant
            start <= i <= n,
            n == s@.len(),
            digits == s@.subrange(start as int, n as int),
            digits == unsigned_digits(s@),
            start < n,
            forall|j: int| 0 <= j < i - start ==> is_digit(#[trigger] digits[j]),
            !overflow ==> value == digits_value(digits.take(i - start)),
            overflow ==> digits_value(digits.take(i - start)) > usize::MAX,
        decreases n - i,
    {
        let ch = s.get_char(i);
        if !('0' <= ch && ch <= '9') {
            assert(!is_digit(digits[i - start]));
            return None;
        }
        let d = (ch as u32 - '0' as u32) as usize;
        proof {
            assert(digits.take(i + 1 - start).drop_last() =~= digits.take(i - start));
        }
        if !overflow {
            if value > (usize::MAX - d) / 10 {
                overflow = true;
                assert(value * 10 + d > usize::MAX) by (nonlinear_arith)
                    requires
                        value > (usize::MAX - d) / 10,
                        d <= 9,
                ;
            } else {
                assert(value * 10 + d <= usize::MAX) by (nonlinear_arith)
                    requires
                        value <= (usize::MAX - d) / 10,
                        d <= 9,
                ;
                value = value * 10 + d;
            }
        } else {
            assert(digits_value(digits.take(i + 1 - start)) >= digits_value(digits.take(i - start))
                * 10) by (nonlinear_arith)
                requires
                    digits_value(digits.take(i + 1 - start)) == digits_value(digits.take(i - start))
                        * 10 + d,
            ;
        }
        i = i + 1;
    }
    proof {
        assert(digits.take(n - start) =~= digits);
    }
    if overflow {
        None
    } else {
        Some(value)
    }
}

/// Decimal digits of `n`, without leading zeros (`"0"` for zero).
pub open spec fn decimal(n: nat) -> Seq<char>
    decreases n,
{
    if n < 10 {
        seq![(('0' as u32) + n) as char]
    } else {
        decimal(n / 10).push((('0' as u32) + (n % 10)) as char)
    }
}

/// Decimal digits of `n`, with a leading zero when `n` has one digit
/// (as `format!("{n:02}")` writes it).
pub open spec fn decimal2(n: nat) -> Seq<char> {
    if n < 10 {
        seq!['0'].add(decimal(n))
    } else {
        decimal(n)
    }
}

fn digit_char(d: usize) -> (c: char)
    requires
        d < 10,
    ensures
        c == (('0' as u32) + d) as char,
{
    if d == 0 {
        '0'
    } else if d == 1 {
        '1'
    } else if d == 2 {
        '2'
    } else if d == 3 {
        '3'
    } else if d == 4 {
        '4'
    } else if d == 5 {
        '5'
    } else if d == 6 {
        '6'
    } else if d == 7 {
        '7'
    } else if d == 8 {
        '8'
    } else {
        '9'
    }
}

/// Append the decimal digits of `n`.
pub fn push_decimal(s: &mut String, n: usize)
    ensures
        final(s)@ == old(s)@ + decimal(n as nat),
    decreases n,
{
    if n < 10 {
        push_char(s, digit_char(n));
        assert(decimal(n as nat) =~= seq![(('0' as u32) + n) as char]);
    } else {
        push_decimal(s, n / 10);
        push_char(s, digit_char(n % 10));
        assert(decimal(n as nat) =~= decimal((n / 10) as nat).push(
            (('0' as u32) + (n % 10) as nat) as char,
        ));
    }
}

} // verus!

verus! {

/// `decimal(n)` is `n` written in decimal: digits only, of value `n`, with no
/// leading zero.
pub proof fn law_decimal_digits(n: nat)
    ensures
        decimal(n).len() >= 1,
        all_digits(decimal(n)),
        digits_value(decimal(n)) == n,
        decimal(n).len() > 1 ==> decimal(n)[0] != '0',
        (n < 10) == (decimal(n).len() == 1),
    decreases n,
{
    if n < 10 {
        let c = (('0' as u32) + n) as char;
        assert(decimal(n) == seq![c]);
        assert((c as u32) == ('0' as u32) + n);
        assert(seq![c].drop_last() =~= Seq::<char>::empty());
        assert(digits_value(seq![c]) == digits_value(Seq::<char>::empty()) * 10 + ((c as u32) - ('0' as u32)) as nat);
    } else {
        law_decimal_digits(n / 10);
        let prev = decimal(n / 10);
        let c = (('0' as u32) + (n % 10)) as char;
        let d = prev.push(c);
        assert(decimal(n) == d);
        assert((c as u32) == ('0' as u32) + n % 10);
        assert(d.drop_last() =~= prev);
        assert(digits_value(d) == digits_value(prev) * 10 + ((c as u32) - ('0' as u32)) as nat);
        assert(n == (n / 10) * 10 + n % 10);
        assert forall|i: int| 0 <= i < d.len() implies is_digit(#[trigger] d[i]) by {
            if i < prev.len() {
                assert(d[i] == prev[i]);
            }
        }
        if prev.len() == 1 {
            assert(n / 10 >= 1 && n / 10 < 10);
            let c0 = (('0' as u32) + n / 10) as char;
            assert(prev == seq![c0]);
            assert((c0 as u32) == ('0' as u32) + n / 10);
            assert(prev[0] == c0);
        }
        assert(d[0] == prev[0]);
    }
}

/// `decimal2(n)` is `n` in decimal padded to at least two digits: exactly two
/// digits of value `n` below 100, and from 10 on no leading zero.
pub proof fn law_decimal2_digits(n: nat)
    ensures
        all_digits(decimal2(n)),
        digits_value(decimal2(n)) == n,
        n < 100 ==> decimal2(n).len() == 2,
        n >= 10 ==> decimal2(n)[0] != '0',
{
    law_decimal_digits(n);
    if n < 10 {
        let d = seq!['0'] + decimal(n);
        assert(decimal2(n) == d);
        assert(decimal(n).len() == 1);
        assert(d.drop_last() =~= seq!['0']);
        assert(seq!['0'].drop_last() =~= Seq::<char>::empty());
        assert(digits_value(seq!['0']) == digits_value(seq!['0'].drop_last()) * 10 + ((seq!['0'].last() as u32) - ('0' as u32)) as nat);
        assert(digits_value(seq!['0']) == 0);
        assert(d.last() == decimal(n)[0]);
        assert(digits_value(decimal(n)) == digits_value(decimal(n).drop_last()) * 10 + ((decimal(n).last() as u32) - ('0' as u32)) as nat);
        assert(decimal(n).drop_last() =~= Seq::<char>::empty());
        assert forall|i: int| 0 <= i < d.len() implies is_digit(#[trigger] d[i]) by {
            if i == 1 {
                assert(d[1] == decimal(n)[0]);
            }
        }
    } else if n < 100 {
        let prev = decimal(n / 10);
        assert(n / 10 < 10);
        assert(prev.len() == 1);
        assert(decimal(n).len() == 2);
    }
}

} // verus!
