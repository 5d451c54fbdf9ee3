//! Character-level text utilities: conversions between strings and
//! character vectors, splitting on a separator, and decimal parsing.
use vstd::prelude::*;

verus! {

// ---------------------------------------------------------------------------
// Conversions
// ---------------------------------------------------------------------------

/// Collects the characters of a string slice.
pub fn chars_of(s: &str) -> (v: Vec<char>)
    ensures
        v@ == s@,
{
    let mut v: Vec<char> = Vec::new();
    for c in it: s.chars()
        invariant
            v@ == it.seq().take(it.index() as int),
            it.seq() == s@,
    {
        v.push(c);
    }
    v
}

/// `String::push`: appends one character.
#[verifier::external_body]
pub(crate) fn push_char(s: &mut String, c: char)
    ensures
        final(s)@ == old(s)@.push(c),
{
    s.push(c);
}

/// Builds a string from a slice of characters.
pub fn string_of(v: &[char]) -> (s: String)
    ensures
        s@ == v@,
{
    let mut s = String::new();
    let mut i: usize = 0;
    while i < v.len()
        invariant
            i <= v.len(),
            s@ == v@.take(i as int),
        decreases v.len() - i,
    {
        push_char(&mut s, v[i]);
        i = i + 1;
        assert(s@ =~= v@.take(i as int));
    }
    assert(v@.take(v.len() as int) =~= v@);
    s
}

/// Appends all characters of `v` to `s`.
pub fn push_chars(s: &mut String, v: &[char])
    ensures
        final(s)@ == old(s)@ + v@,
{
    let ghost start = s@;
    let mut i: usize = 0;
    while i < v.len()
        invariant
            i <= v.len(),
            s@ == start + v@.take(i as int),
        decreases v.len() - i,
    {
        push_char(s, v[i]);
        i = i + 1;
        assert(s@ =~= start + v@.take(i as int));
    }
    assert(v@.take(v.len() as int) =~= v@);
}

/// Appends a string slice to `s`.
pub fn push_str(s: &mut String, t: &str)
    ensures
        final(s)@ == old(s)@ + t@,
{
    let v = chars_of(t);
    push_chars(s, v.as_slice());
}

/// Character-wise equality of two slices.
pub fn chars_eq(a: &[char], b: &[char]) -> (r: bool)
    ensures
        r == (a@ == b@),
{
    if a.len() != b.len() {
        return false;
    }
    let mut i: usize = 0;
    while i < a.len()
        invariant
            a.len() == b.len(),
            i <= a.len(),
            forall|j: int| 0 <= j < i ==> a@[j] == b@[j],
        decreases a.len() - i,
    {
        if a[i] != b[i] {
            return false;
        }
        i = i + 1;
    }
    assert(a@ =~= b@);
    true
}

/// Equality of two strings by their characters.
pub fn str_eq(a: &str, b: &str) -> (r: bool)
    ensures
        r == (a@ == b@),
{
    let va = chars_of(a);
    let vb = chars_of(b);
    chars_eq(va.as_slice(), vb.as_slice())
}

/// The views of a sequence of strings.
pub open spec fn str_views(s: Seq<String>) -> Seq<Seq<char>> {
    s.map_values(|x: String| x@)
}

/// Whether `v` holds a string equal to `s`.
pub fn contains_str(v: &Vec<String>, s: &str) -> (r: bool)
    ensures
        r == str_views(v@).to_set().contains(s@),
{
    let mut i: usize = 0;
    while i < v.len()
        invariant
            i <= v@.len(),
            forall|j: int| 0 <= j < i ==> v@[j]@ != s@,
        decreases v@.len() - i,
    {
        if str_eq(v[i].as_str(), s) {
            assert(str_views(v@)[i as int] == s@);
            return true;
        }
        i = i + 1;
    }
    assert forall|j: int| 0 <= j < str_views(v@).len() implies str_views(v@)[j] != s@ by {
        assert(str_views(v@)[j] == v@[j]@);
    }
    false
}

// ---------------------------------------------------------------------------
// Splitting
// ---------------------------------------------------------------------------

/// Index of the first occurrence of `sep` in `s`, or `s.len()` if absent.
pub open spec fn first_index(s: Seq<char>, sep: char) -> nat
    decreases s.len(),
{
    if s.len() == 0 {
        0
    } else if s[0] == sep {
        0
    } else {
        1 + first_index(s.drop_first(), sep)
    }
}

/// The pieces of `s` between occurrences of `sep`, as `str::split` yields them:
/// always at least one piece, and empty pieces where separators are adjacent.
pub open spec fn split_pieces(s: Seq<char>, sep: char) -> Seq<Seq<char>>
    decreases s.len(),
{
    let i = first_index(s, sep);
    if i >= s.len() {
        seq![s]
    } else {
        seq![s.take(i as int)] + split_pieces(s.skip(i as int + 1), sep)
    }
}

/// Whether `c` occurs in `s`.
pub open spec fn has_char(s: Seq<char>, c: char) -> bool {
    exists|i: int| 0 <= i < s.len() && s[i] == c
}

/// Characterises `first_index` by the position of the first separator.
pub proof fn lemma_first_index(s: Seq<char>, sep: char, j: int)
    requires
        0 <= j <= s.len(),
        forall|i: int| 0 <= i < j ==> s[i] != sep,
        j == s.len() || s[j] == sep,
    ensures
        first_index(s, sep) == j,
    decreases j,
{
    if j > 0 {
        assert(s[0] != sep);
        lemma_first_index(s.drop_first(), sep, j - 1);
    }
}

/// `first_index` never exceeds the length, and points at a separator when smaller.
pub proof fn lemma_first_index_bounds(s: Seq<char>, sep: char)
    ensures
        first_index(s, sep) <= s.len(),
        first_index(s, sep) < s.len() ==> s[first_index(s, sep) as int] == sep,
        forall|i: int| 0 <= i < first_index(s, sep) ==> s[i] != sep,
    decreases s.len(),
{
    if s.len() > 0 && s[0] != sep {
        lemma_first_index_bounds(s.drop_first(), sep);
        assert forall|i: int| 0 <= i < first_index(s, sep) implies s[i] != sep by {
            if i > 0 {
                assert(s[i] == s.drop_first()[i - 1]);
            }
        }
    }
}

/// A text without the separator splits into itself alone.
pub proof fn lemma_split_no_sep(s: Seq<char>, sep: char)
    requires
        !has_char(s, sep),
    ensures
        split_pieces(s, sep) == seq![s],
{
    lemma_first_index(s, sep, s.len() as int);
}

/// Splitting `a + [sep] + b` where `a` has no separator.
pub proof fn lemma_split_cons(a: Seq<char>, sep: char, b: Seq<char>)
    requires
        !has_char(a, sep),
    ensures
        split_pieces(a + seq![sep] + b, sep) == seq![a] + split_pieces(b, sep),
{
    let s = a + seq![sep] + b;
    assert forall|i: int| 0 <= i < a.len() implies s[i] != sep by {
        assert(s[i] == a[i]);
    }
    lemma_first_index(s, sep, a.len() as int);
    assert(s.take(a.len() as int) =~= a);
    assert(s.skip(a.len() as int + 1) =~= b);
}

/// Every piece is free of the separator, and there is at least one piece.
pub proof fn lemma_split_pieces_props(s: Seq<char>, sep: char)
    ensures
        split_pieces(s, sep).len() >= 1,
        forall|k: int| 0 <= k < split_pieces(s, sep).len() ==> !has_char(#[trigger] split_pieces(s, sep)[k], sep),
    decreases s.len(),
{
    lemma_first_index_bounds(s, sep);
    let i = first_index(s, sep);
    if i < s.len() {
        lemma_split_pieces_props(s.skip(i as int + 1), sep);
        let rest = split_pieces(s.skip(i as int + 1), sep);
        assert forall|k: int| 0 <= k < split_pieces(s, sep).len() implies !has_char(#[trigger] split_pieces(s, sep)[k], sep) by {
            if k == 0 {
                assert(split_pieces(s, sep)[0] == s.take(i as int));
            } else {
                assert(split_pieces(s, sep)[k] == rest[k - 1]);
            }
        }
    }
}

/// The character sequences held by a sequence of character vectors.
pub open spec fn char_views(v: Seq<Vec<char>>) -> Seq<Seq<char>> {
    v.map_values(|x: Vec<char>| x@)
}

/// Splits `s` at every occurrence of `sep`, as `str::split` does.
pub fn split_chars(s: &[char], sep: char) -> (r: Vec<Vec<char>>)
    ensures
        char_views(r@) == split_pieces(s@, sep),
{
    let mut done: Vec<Vec<char>> = Vec::new();
    let mut cur: Vec<char> = Vec::new();
    let mut start: usize = 0;
    let mut k: usize = 0;
    assert(s@.skip(0) =~= s@);
    assert(char_views(done@) =~= Seq::<Seq<char>>::empty());
    assert(cur@ =~= s@.subrange(0, 0));
    while k < s.len()
        invariant
            start <= k <= s.len(),
            cur@ == s@.subrange(start as int, k as int),
            !has_char(cur@, sep),
            split_pieces(s@, sep) == char_views(done@) + split_pieces(s@.skip(start as int), sep),
        decreases s.len() - k,
    {
        let c = s[k];
        if c == sep {
            proof {
                let t = s@.skip(start as int);
                let a = cur@;
                let b = s@.skip(k as int + 1);
                assert(t =~= a + seq![sep] + b);
                lemma_split_cons(a, sep, b);
            }
            let ghost old_done = char_views(done@);
            done.push(cur);
            assert(char_views(done@) =~= old_done.push(s@.subrange(start as int, k as int)));
            cur = Vec::new();
            start = k + 1;
            k = k + 1;
            assert(cur@ =~= s@.subrange(start as int, k as int));
            assert(split_pieces(s@, sep) =~= char_views(done@) + split_pieces(s@.skip(start as int), sep));
        } else {
            cur.push(c);
            k = k + 1;
            assert(cur@ =~= s@.subrange(start as int, k as int));
            assert(!has_char(cur@, sep)) by {
                if has_char(cur@, sep) {
                    let j = choose|j: int| 0 <= j < cur@.len() && cur@[j] == sep;
                    if j < cur@.len() - 1 {
                        assert(cur@.drop_last()[j] == sep);
                    }
                }
                assert(cur@.drop_last() =~= s@.subrange(start as int, k - 1));
            }
        }
    }
    proof {
        assert(s@.skip(start as int) =~= cur@);
        lemma_split_no_sep(cur@, sep);
    }
    let ghost old_done = char_views(done@);
    done.push(cur);
    assert(char_views(done@) =~= old_done.push(s@.skip(start as int)));
    assert(char_views(done@) =~= split_pieces(s@, sep));
    done
}

// ---------------------------------------------------------------------------
// Decimal numbers
// ---------------------------------------------------------------------------

/// An ASCII decimal digit.
pub open spec fn is_digit(c: char) -> bool {
    '0' <= c && c <= '9'
}

/// The value of a decimal digit.
pub open spec fn digit_value(c: char) -> nat {
    (c as int - '0' as int) as nat
}

/// A non-empty run of decimal digits.
pub open spec fn is_digits(s: Seq<char>) -> bool {
    s.len() > 0 && forall|i: int| 0 <= i < s.len() ==> is_digit(#[trigger] s[i])
}

/// The value of a run of decimal digits, most significant first.
pub open spec fn decimal_value(s: Seq<char>) -> nat
    decreases s.len(),
{
    if s.len() == 0 {
        0
    } else {
        decimal_value(s.drop_last()) * 10 + digit_value(s.last())
    }
}

/// The digits of an unsigned number: an optional leading `+` is dropped.
pub open spec fn unsigned_digits(s: Seq<char>) -> Seq<char> {
    if s.len() > 0 && s[0] == '+' {
        s.drop_first()
    } else {
        s
    }
}

/// What `str::parse` gives for an unsigned integer type whose maximum is `max`:
/// an optional `+`, then at least one ASCII digit, with a value not above `max`.
pub open spec fn parse_unsigned_spec(s: Seq<char>, max: nat) -> Option<nat> {
    let d = unsigned_digits(s);
    if is_digits(d) && decimal_value(d) <= max {
        Some(decimal_value(d))
    } else {
        None
    }
}

/// What `str::parse::<i64>` gives: an optional sign, then at least one ASCII
/// digit, with a value in the range of `i64`.
pub open spec fn parse_i64_spec(s: Seq<char>) -> Option<int> {
    if s.len() > 0 && s[0] == '-' {
        let d = s.drop_first();
        if is_digits(d) && decimal_value(d) <= 0x8000_0000_0000_0000 {
            Some(-(decimal_value(d) as int))
        } else {
            None
        }
    } else {
        let d = unsigned_digits(s);
        if is_digits(d) && decimal_value(d) <= 0x7fff_ffff_ffff_ffff {
            Some(decimal_value(d) as int)
        } else {
            None
        }
    }
}

/// A prefix never has a larger decimal value than the whole.
pub proof fn lemma_decimal_prefix_le(s: Seq<char>, k: int)
    requires
        0 <= k <= s.len(),
    ensures
        decimal_value(s.take(k)) <= decimal_value(s),
    decreases s.len() - k,
{
    if k < s.len() {
        lemma_decimal_prefix_le(s, k + 1);
        assert(s.take(k + 1).drop_last() =~= s.take(k));
    }
    assert(s.take(s.len() as int) =~= s);
}

/// Parses the digits `s[from..]` as a decimal number not above `max`.
fn parse_digits(s: &[char], from: usize, max: u64) -> (r: Option<u64>)
    requires
        from <= s.len(),
    ensures
        r is Some <==> (is_digits(s@.skip(from as int)) && decimal_value(s@.skip(from as int)) <= max),
        r matches Some(v) ==> v == decimal_value(s@.skip(from as int)),
{
    let ghost d = s@.skip(from as int);
    if from == s.len() {
        return None;
    }
    let mut acc: u64 = 0;
    let mut k: usize = from;
    while k < s.len()
        invariant
            from <= k <= s.len(),
            d == s@.skip(from as int),
            acc <= max,
            acc == decimal_value(d.take(k - from)),
            forall|i: int| 0 <= i < k - from ==> is_digit(#[trigger] d[i]),
        decreases s.len() - k,
    {
        let c = s[k];
        if !('0' <= c && c <= '9') {
            assert(!is_digit(d[k - from]));
            return None;
        }
        let dv: u64 = (c as u32 - '0' as u32) as u64;
        proof {
            assert(d.take(k - from + 1).drop_last() =~= d.take(k - from));
            assert(d[k - from] == c);
        }
        if dv > max || acc > (max - dv) / 10 {
            proof {
                assert(acc * 10 + dv > max) by (nonlinear_arith)
                    requires
                        dv > max || acc > (max - dv) / 10,
                        dv <= 9,
                ;
                lemma_decimal_prefix_le(d, k - from + 1);
            }
            return None;
        }
        proof {
            assert(acc * 10 + dv <= max) by (nonlinear_arith)
                requires
                    dv <= max,
                    acc <= (max - dv) / 10,
            ;
        }
        acc = acc * 10 + dv;
        k = k + 1;
    }
    assert(d.take(k - from) =~= d);
    Some(acc)
}

/// Parses an unsigned decimal number not above `max`, as `str::parse` does
/// for an unsigned integer type.
pub fn parse_unsigned(s: &[char], max: u64) -> (r: Option<u64>)
    ensures
        r matches Some(v) ==> parse_unsigned_spec(s@, max as nat) == Some(v as nat),
        r is None ==> parse_unsigned_spec(s@, max as nat) is None,
{
    if s.len() > 0 && s[0] == '+' {
        assert(s@.skip(1) =~= s@.drop_first());
        parse_digits(s, 1, max)
    } else {
        assert(s@.skip(0) =~= s@);
        parse_digits(s, 0, max)
    }
}

/// `str::parse::<u8>`.
pub fn parse_u8(s: &str) -> (r: Option<u8>)
    ensures
        r matches Some(v) ==> parse_unsigned_spec(s@, 0xff) == Some(v as nat),
        r is None ==> parse_unsigned_spec(s@, 0xff) is None,
{
    let v = chars_of(s);
    match parse_unsigned(v.as_slice(), 0xff) {
        Some(x) => Some(x as u8),
        None => None,
    }
}

/// `str::parse::<u16>`.
pub fn parse_u16(s: &str) -> (r: Option<u16>)
    ensures
        r matches Some(v) ==> parse_unsigned_spec(s@, 0xffff) == Some(v as nat),
        r is None ==> parse_unsigned_spec(s@, 0xffff) is None,
{
    let v = chars_of(s);
    match parse_unsigned(v.as_slice(), 0xffff) {
        Some(x) => Some(x as u16),
        None => None,
    }
}

/// `str::parse::<u64>`.
pub fn parse_u64(s: &str) -> (r: Option<u64>)
    ensures
        r matches Some(v) ==> parse_unsigned_spec(s@, 0xffff_ffff_ffff_ffff) == Some(v as nat),
        r is None ==> parse_unsigned_spec(s@, 0xffff_ffff_ffff_ffff) is None,
{
    let v = chars_of(s);
    parse_unsigned(v.as_slice(), 0xffff_ffff_ffff_ffff)
}

/// `str::parse::<i64>`.
pub fn parse_i64(s: &[char]) -> (r: Option<i64>)
    ensures
        r matches Some(v) ==> parse_i64_spec(s@) == Some(v as int),
        r is None ==> parse_i64_spec(s@) is None,
{
    if s.len() > 0 && s[0] == '-' {
        assert(s@.skip(1) =~= s@.drop_first());
        match parse_digits(s, 1, 0x8000_0000_0000_0000) {
            Some(m) => {
                if m == 0x8000_0000_0000_0000 {
                    Some(i64::MIN)
                } else {
                    Some(-(m as i64))
                }
            },
            None => None,
        }
    } else if s.len() > 0 && s[0] == '+' {
        assert(s@.skip(1) =~= s@.drop_first());
        match parse_digits(s, 1, 0x7fff_ffff_ffff_ffff) {
            Some(m) => Some(m as i64),
            None => None,
        }
    } else {
        assert(s@.skip(0) =~= s@);
        match parse_digits(s, 0, 0x7fff_ffff_ffff_ffff) {
            Some(m) => Some(m as i64),
            None => None,
        }
    }
}

// ---------------------------------------------------------------------------
// Decimal formatting
// ---------------------------------------------------------------------------

/// The character of a decimal digit `d < 10`.
pub open spec fn digit_char(d: nat) -> char {
    ((d + 48) as u32) as char
}

/// The decimal digits of `n`, most significant first, without leading zeros.
pub open spec fn nat_digits(n: nat) -> Seq<char>
    decreases n,
{
    if n < 10 {
        seq![digit_char(n)]
    } else {
        nat_digits(n / 10).push(digit_char(n % 10))
    }
}

/// The decimal text of an integer, with a leading `-` when negative.
pub open spec fn int_text(n: int) -> Seq<char> {
    if n < 0 {
        seq!['-'] + nat_digits((-n) as nat)
    } else {
        nat_digits(n as nat)
    }
}

/// The digits of `n` are digits, and their value is `n`.
pub proof fn lemma_nat_digits(n: nat)
    ensures
        is_digits(nat_digits(n)),
        decimal_value(nat_digits(n)) == n,
        is_digit(nat_digits(n)[0]),
    decreases n,
{
    if n >= 10 {
        lemma_nat_digits(n / 10);
        let s = nat_digits(n);
        assert(s.drop_last() =~= nat_digits(n / 10));
        assert(digit_value(digit_char(n % 10)) == n % 10);
        assert((n / 10) * 10 + n % 10 == n) by (nonlinear_arith);
        assert(s.last() == digit_char(n % 10));
        assert(decimal_value(s) == decimal_value(s.drop_last()) * 10 + digit_value(s.last()));
        assert forall|i: int| 0 <= i < s.len() implies is_digit(#[trigger] s[i]) by {
            if i < s.len() - 1 {
                assert(s[i] == nat_digits(n / 10)[i]);
            }
        }
        assert(s[0] == nat_digits(n / 10)[0]);
    } else {
        assert(digit_value(digit_char(n)) == n);
        let s = nat_digits(n);
        assert(s.drop_last() =~= Seq::<char>::empty());
        assert(decimal_value(s) == decimal_value(s.drop_last()) * 10 + digit_value(s.last()));
    }
}

/// Appends the decimal digits of `n`.
fn push_nat_digits(s: &mut String, n: u64)
    ensures
        final(s)@ == old(s)@ + nat_digits(n as nat),
    decreases n,
{
    if n >= 10 {
        push_nat_digits(s, n / 10);
    }
    let d: u8 = (n % 10) as u8;
    let c = (d + 48) as char;
    push_char(s, c);
    assert(c == digit_char((n % 10) as nat));
    if n >= 10 {
        assert(nat_digits(n as nat) == nat_digits((n / 10) as nat).push(digit_char((n % 10) as nat)));
    }
    assert(final(s)@ =~= old(s)@ + nat_digits(n as nat));
}

/// The decimal text of `n`, as `i64::to_string` gives it.
pub fn format_i64(n: i64) -> (r: String)
    ensures
        r@ == int_text(n as int),
{
    let mut s = String::new();
    if n < 0 {
        push_char(&mut s, '-');
        let m: u64 = if n == i64::MIN {
            0x8000_0000_0000_0000
        } else {
            (-n) as u64
        };
        push_nat_digits(&mut s, m);
    } else {
        push_nat_digits(&mut s, n as u64);
    }
    assert(s@ =~= int_text(n as int));
    s
}

/// Formatting then parsing an `i64` gives it back.
pub proof fn lemma_format_parse_i64(n: i64)
    ensures
        parse_i64_spec(int_text(n as int)) == Some(n as int),
{
    if n < 0 {
        let m = (-(n as int)) as nat;
        lemma_nat_digits(m);
        assert((seq!['-'] + nat_digits(m)).drop_first() =~= nat_digits(m));
    } else {
        lemma_nat_digits(n as nat);
    }
}

} // verus!
