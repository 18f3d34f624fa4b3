use vstd::prelude::*;
use vstd::string::*;
use vstd::utf8::*;

verus! {

/// The lower-case form of a text, as Unicode defines it.
pub uninterp spec fn lowercase(s: Seq<char>) -> Seq<char>;

/// The upper-case form of a text, as Unicode defines it.
pub uninterp spec fn uppercase(s: Seq<char>) -> Seq<char>;

/// Whether a character has the Unicode property `Alphabetic`.
pub uninterp spec fn alphabetic(c: char) -> bool;

/// `str::to_lowercase`: the result is the lower-case form of the argument.
#[verifier::external_body]
pub(crate) fn to_lowercase(s: &str) -> (lower: String)
    ensures
        lower@ == lowercase(s@),
{
    s.to_lowercase()
}

/// `str::to_uppercase`: the result is the upper-case form of the argument.
#[verifier::external_body]
pub(crate) fn to_uppercase(s: &str) -> (upper: String)
    ensures
        upper@ == uppercase(s@),
{
    s.to_uppercase()
}

/// `char::is_alphabetic`: the result says whether the character has the
/// property `Alphabetic`.
#[verifier::external_body]
pub(crate) fn is_alphabetic(c: char) -> (b: bool)
    ensures
        b == alphabetic(c),
{
    c.is_alphabetic()
}

/// `String::push` appends one character.
pub assume_specification[ std::string::String::push ](s: &mut std::string::String, c: char)
    ensures
        final(s)@ == old(s)@.push(c),
;

/// `String::from_utf8`: the bytes become a text exactly when they are valid
/// UTF-8, and the text is then their decoding.
#[verifier::external_body]
pub(crate) fn text_from_utf8(bytes: Vec<u8>) -> (text: Option<String>)
    ensures
        text is Some <==> valid_utf8(bytes@),
        text matches Some(s) ==> s@ == decode_utf8(bytes@),
{
    match String::from_utf8(bytes) {
        Ok(s) => Some(s),
        Err(_) => None,
    }
}

/// The characters of a text.
pub fn chars_of(s: &str) -> (chars: Vec<char>)
    ensures
        chars@ == s@,
{
    let mut chars: Vec<char> = Vec::new();
    for c in it: s.chars()
        invariant
            chars@ == it.seq().take(it.index() as int),
    {
        chars.push(c);
    }
    chars
}

/// The text made of the characters `chars[from..to]`.
pub fn text_of(chars: &Vec<char>, from: usize, to: usize) -> (s: String)
    requires
        from <= to <= chars@.len(),
    ensures
        s@ == chars@.subrange(from as int, to as int),
{
    let mut s = String::new();
    let mut i: usize = from;
    while i < to
        invariant
            from <= i <= to <= chars@.len(),
            s@ == chars@.subrange(from as int, i as int),
        decreases to - i,
    {
        s.push(chars[i]);
        proof {
            assert(chars@.subrange(from as int, i as int).push(chars@[i as int])
                =~= chars@.subrange(from as int, i + 1));
        }
        i = i + 1;
    }
    s
}

/// Whether two texts hold the same characters.
pub fn same_text(a: &str, b: &str) -> (same: bool)
    ensures
        same == (a@ == b@),
{
    let x = a.as_bytes();
    let y = b.as_bytes();
    proof {
        encode_utf8_decode_utf8(a@);
        encode_utf8_decode_utf8(b@);
    }
    if x.len() != y.len() {
        return false;
    }
    let mut i: usize = 0;
    while i < x.len()
        invariant
            i <= x@.len() == y@.len(),
            x@.subrange(0, i as int) == y@.subrange(0, i as int),
            x@ == encode_utf8(a@),
            y@ == encode_utf8(b@),
            decode_utf8(encode_utf8(a@)) == a@,
            decode_utf8(encode_utf8(b@)) == b@,
        decreases x@.len() - i,
    {
        if x[i] != y[i] {
            return false;
        }
        proof {
            assert(x@.subrange(0, i + 1) =~= x@.subrange(0, i as int).push(x@[i as int]));
            assert(y@.subrange(0, i + 1) =~= y@.subrange(0, i as int).push(y@[i as int]));
        }
        i = i + 1;
    }
    proof {
        assert(x@ =~= x@.subrange(0, i as int));
        assert(y@ =~= y@.subrange(0, i as int));
    }
    true
}

/// Whether a character is white space: one of the characters with the
/// Unicode property `White_Space`.
pub open spec fn whitespace(c: char) -> bool {
    let u = c as u32;
    (0x09 <= u <= 0x0d) || u == 0x20 || u == 0x85 || u == 0xa0 || u == 0x1680 || (0x2000 <= u
        <= 0x200a) || u == 0x2028 || u == 0x2029 || u == 0x202f || u == 0x205f || u == 0x3000
}

/// Whether a character is white space.
pub fn is_whitespace(c: char) -> (b: bool)
    ensures
        b == whitespace(c),
{
    let u = c as u32;
    (0x09 <= u && u <= 0x0d) || u == 0x20 || u == 0x85 || u == 0xa0 || u == 0x1680 || (0x2000 <= u
        && u <= 0x200a) || u == 0x2028 || u == 0x2029 || u == 0x202f || u == 0x205f || u == 0x3000
}

/// Whether a character is one of the digits `0` to `9`.
pub open spec fn digit(c: char) -> bool {
    48 <= c as u32 <= 57
}

/// Whether a character is one of the digits `0` to `9`.
pub fn is_digit(c: char) -> (b: bool)
    ensures
        b == digit(c),
{
    let u = c as u32;
    48 <= u && u <= 57
}

/// The character for a digit.
pub open spec fn digit_char(d: nat) -> char {
    ((48 + d) as u8) as char
}

/// The digits of a natural number, most significant first.
pub open spec fn digits(n: nat) -> Seq<char>
    decreases n,
{
    if n < 10 {
        seq![digit_char(n)]
    } else {
        digits(n / 10).push(digit_char(n % 10))
    }
}

/// An integer in decimal, with a minus sign where it is negative and
/// without leading zeros.
pub open spec fn decimal(n: int) -> Seq<char> {
    if n < 0 {
        seq!['-'] + digits((-n) as nat)
    } else {
        digits(n as nat)
    }
}

/// Writes an integer in decimal.
pub fn decimal_text(n: i64) -> (s: String)
    ensures
        s@ == decimal(n as int),
{
    let magnitude: u64 = if n < 0 {
        (-(n as i128)) as u64
    } else {
        n as u64
    };
    let mut rest: u64 = magnitude;
    let mut reversed: Vec<char> = Vec::new();
    while rest >= 10
        invariant
            digits(magnitude as nat) =~= digits(rest as nat) + reversed@.reverse(),
        decreases rest,
    {
        let ghost before = reversed@;
        let d: u8 = (rest % 10) as u8;
        reversed.push((48 + d) as char);
        proof {
            assert(reversed@.reverse() =~= seq![digit_char((rest % 10) as nat)]
                + before.reverse());
        }
        rest = rest / 10;
    }
    let mut s = String::new();
    if n < 0 {
        s.push('-');
    }
    s.push((48 + rest as u8) as char);
    let ghost head = s@;
    let mut j: usize = reversed.len();
    while j > 0
        invariant
            j <= reversed@.len(),
            s@ =~= head + reversed@.reverse().subrange(0, reversed@.len() - j),
        decreases j,
    {
        j = j - 1;
        s.push(reversed[j]);
    }
    proof {
        assert(reversed@.reverse().subrange(0, reversed@.len() as int) =~= reversed@.reverse());
    }
    s
}

/// The value of a text that is made of digits only, and of one at least.
pub open spec fn digits_value(s: Seq<char>) -> Option<nat>
    decreases s.len(),
{
    if s.len() == 0 || !digit(s.last()) {
        None
    } else if s.len() == 1 {
        Some((s.last() as u32 - 48) as nat)
    } else {
        match digits_value(s.drop_last()) {
            Some(v) => Some(v * 10 + (s.last() as u32 - 48) as nat),
            None => None,
        }
    }
}

/// The integer that a text spells: an optional sign, then digits only. The
/// integer must fit in 64 bits.
pub open spec fn parse_integer(s: Seq<char>) -> Option<int> {
    let signed = s.len() > 0 && (s[0] == '-' || s[0] == '+');
    let body = if signed {
        s.subrange(1, s.len() as int)
    } else {
        s
    };
    match digits_value(body) {
        None => None,
        Some(v) => {
            let n = if signed && s[0] == '-' {
                -(v as int)
            } else {
                v as int
            };
            if i64::MIN <= n <= i64::MAX {
                Some(n)
            } else {
                None
            }
        },
    }
}

/// Every prefix of a text of digits is a text of digits, and spells no
/// more than the whole.
proof fn lemma_digits_value_prefix(s: Seq<char>, k: int)
    requires
        1 <= k <= s.len(),
    ensures
        digits_value(s) matches Some(v) ==> digits_value(s.subrange(0, k)) is Some
            && digits_value(s.subrange(0, k))->Some_0 <= v,
        digits_value(s.subrange(0, k)) is None ==> digits_value(s) is None,
    decreases s.len(),
{
    if k == s.len() {
        assert(s.subrange(0, k) =~= s);
    } else {
        assert(s.drop_last().subrange(0, k) =~= s.subrange(0, k));
        lemma_digits_value_prefix(s.drop_last(), k);
    }
}

/// Reads the integer that `chars` spell.
#[verifier::loop_isolation(false)]
pub fn integer_of(chars: &Vec<char>) -> (n: Option<i64>)
    ensures
        match parse_integer(chars@) {
            Some(v) => n == Some(v as i64) && n->Some_0 == v,
            None => n is None,
        },
{
    let len = chars.len();
    let signed = len > 0 && (chars[0] == '-' || chars[0] == '+');
    let negative = signed && chars[0] == '-';
    let start: usize = if signed {
        1
    } else {
        0
    };
    let ghost body = chars@.subrange(start as int, len as int);
    proof {
        assert(chars@.subrange(0, len as int) =~= chars@);
    }
    if start == len {
        return None;
    }
    let mut acc: u64 = 0;
    let mut i: usize = start;
    while i < len
        invariant
            start <= i <= len == chars@.len(),
            start < len,
            body == chars@.subrange(start as int, len as int),
            i > start ==> digits_value(body.subrange(0, i - start)) == Some(acc as nat),
            i == start ==> acc == 0,
            acc <= 0x8000_0000_0000_0000,
        decreases len - i,
    {
        let c = chars[i];
        proof {
            let next = body.subrange(0, i + 1 - start);
            assert(next.last() == c);
            assert(next.drop_last() =~= body.subrange(0, i - start));
            lemma_digits_value_prefix(body, i + 1 - start);
            if digit(c) {
                assert(digits_value(next) == Some(
                    (acc * 10 + (c as u32 - 48)) as nat,
                ));
            }
        }
        if !is_digit(c) {
            return None;
        }
        let d: u64 = (c as u32 - 48) as u64;
        if acc > 0x0ccc_cccc_cccc_cccc {
            return None;
        }
        acc = acc * 10 + d;
        if acc > 0x8000_0000_0000_0000 {
            return None;
        }
        i = i + 1;
    }
    proof {
        assert(body.subrange(0, len - start) =~= body);
    }
    if negative {
        Some((-(acc as i128)) as i64)
    } else if acc == 0x8000_0000_0000_0000 {
        None
    } else {
        Some(acc as i64)
    }
}

/// The first place at or after `from` where `c` stands in `s`; the length
/// of `s` where it stands nowhere there.
pub open spec fn find_from(s: Seq<char>, c: char, from: int) -> int
    decreases s.len() - from,
{
    if from >= s.len() {
        s.len() as int
    } else if from >= 0 && s[from] == c {
        from
    } else {
        find_from(s, c, from + 1)
    }
}

/// The last place before `end` where `c` stands in `s`; -1 where it stands
/// nowhere there.
pub open spec fn find_last(s: Seq<char>, c: char, end: int) -> int
    decreases end,
{
    if end <= 0 {
        -1
    } else if end <= s.len() && s[end - 1] == c {
        end - 1
    } else {
        find_last(s, c, end - 1)
    }
}

/// What is found stands at or after `from`, and `c` stands there.
pub proof fn lemma_find_from_bounds(s: Seq<char>, c: char, from: int)
    requires
        0 <= from <= s.len(),
    ensures
        from <= find_from(s, c, from) <= s.len(),
        find_from(s, c, from) < s.len() ==> s[find_from(s, c, from)] == c,
    decreases s.len() - from,
{
    if from < s.len() && s[from] != c {
        lemma_find_from_bounds(s, c, from + 1);
    }
}

/// Finds the first place at or after `from` where `c` stands.
pub fn find_char(chars: &Vec<char>, c: char, from: usize) -> (at: usize)
    requires
        from <= chars@.len(),
    ensures
        at as int == find_from(chars@, c, from as int),
        from <= at <= chars@.len(),
{
    let ghost s = chars@;
    let to = chars.len();
    let mut i: usize = from;
    while i < to
        invariant
            from <= i <= to == chars@.len(),
            s == chars@,
            find_from(s, c, from as int) == find_from(s, c, i as int),
        decreases to - i,
    {
        if chars[i] == c {
            return i;
        }
        i = i + 1;
    }
    i
}

/// Finds the last place in `chars[..to]` where `c` stands.
pub fn find_last_char(chars: &Vec<char>, c: char, to: usize) -> (at: Option<usize>)
    requires
        to <= chars@.len(),
    ensures
        match at {
            Some(i) => i as int == find_last(chars@, c, to as int) && i < to,
            None => find_last(chars@, c, to as int) == -1,
        },
{
    let mut i: usize = to;
    while i > 0
        invariant
            i <= to <= chars@.len(),
            find_last(chars@, c, to as int) == find_last(chars@, c, i as int),
        decreases i,
    {
        if chars[i - 1] == c {
            return Some(i - 1);
        }
        i = i - 1;
    }
    None
}

/// The first place at or after `from` where `s` holds something other
/// than white space; the length of `s` where there is none.
pub open spec fn skip_whitespace(s: Seq<char>, from: int) -> int
    decreases s.len() - from,
{
    if from >= s.len() {
        s.len() as int
    } else if from >= 0 && !whitespace(s[from]) {
        from
    } else {
        skip_whitespace(s, from + 1)
    }
}

/// The first place at or after `from` where `s` holds white space; the
/// length of `s` where there is none.
pub open spec fn find_whitespace(s: Seq<char>, from: int) -> int
    decreases s.len() - from,
{
    if from >= s.len() {
        s.len() as int
    } else if from >= 0 && whitespace(s[from]) {
        from
    } else {
        find_whitespace(s, from + 1)
    }
}

/// The end of `s[from..end]` without the white space that it ends with.
pub open spec fn trim_end(s: Seq<char>, from: int, end: int) -> int
    decreases end - from,
{
    if end <= from {
        from
    } else if 0 < end <= s.len() && !whitespace(s[end - 1]) {
        end
    } else {
        trim_end(s, from, end - 1)
    }
}

/// A text without the white space that it starts and ends with.
pub open spec fn trim(s: Seq<char>) -> Seq<char> {
    let start = skip_whitespace(s, 0);
    s.subrange(start, trim_end(s, start, s.len() as int))
}

/// Finds the first place at or after `from` that holds no white space.
pub fn skip_whitespace_in(chars: &Vec<char>, from: usize) -> (at: usize)
    requires
        from <= chars@.len(),
    ensures
        at as int == skip_whitespace(chars@, from as int),
        from <= at <= chars@.len(),
{
    let ghost s = chars@;
    let to = chars.len();
    let mut i: usize = from;
    while i < to
        invariant
            from <= i <= to == chars@.len(),
            s == chars@,
            skip_whitespace(s, from as int) == skip_whitespace(s, i as int),
        decreases to - i,
    {
        if !is_whitespace(chars[i]) {
            return i;
        }
        i = i + 1;
    }
    i
}

/// Finds the first white space at or after `from`.
pub fn find_whitespace_in(chars: &Vec<char>, from: usize) -> (at: usize)
    requires
        from <= chars@.len(),
    ensures
        at as int == find_whitespace(chars@, from as int),
        from <= at <= chars@.len(),
{
    let ghost s = chars@;
    let to = chars.len();
    let mut i: usize = from;
    while i < to
        invariant
            from <= i <= to == chars@.len(),
            s == chars@,
            find_whitespace(s, from as int) == find_whitespace(s, i as int),
        decreases to - i,
    {
        if is_whitespace(chars[i]) {
            return i;
        }
        i = i + 1;
    }
    i
}

/// Finds where `chars[from..to]` without trailing white space ends.
pub fn trim_end_in(chars: &Vec<char>, from: usize, to: usize) -> (at: usize)
    requires
        from <= to <= chars@.len(),
    ensures
        at as int == trim_end(chars@, from as int, to as int),
        from <= at <= to,
{
    let mut i: usize = to;
    while i > from
        invariant
            from <= i <= to <= chars@.len(),
            trim_end(chars@, from as int, to as int) == trim_end(chars@, from as int, i as int),
        decreases i,
    {
        if !is_whitespace(chars[i - 1]) {
            return i;
        }
        i = i - 1;
    }
    i
}

/// Copies the characters `chars[from..to]`.
pub fn sub_chars(chars: &Vec<char>, from: usize, to: usize) -> (part: Vec<char>)
    requires
        from <= to <= chars@.len(),
    ensures
        part@ == chars@.subrange(from as int, to as int),
{
    let mut part: Vec<char> = Vec::new();
    let mut i: usize = from;
    while i < to
        invariant
            from <= i <= to <= chars@.len(),
            part@ == chars@.subrange(from as int, i as int),
        decreases to - i,
    {
        part.push(chars[i]);
        proof {
            assert(chars@.subrange(from as int, i as int).push(chars@[i as int])
                =~= chars@.subrange(from as int, i + 1));
        }
        i = i + 1;
    }
    part
}

/// Copies `chars` without the white space that it starts and ends with.
pub fn trimmed(chars: &Vec<char>) -> (part: Vec<char>)
    ensures
        part@ == trim(chars@),
{
    let start = skip_whitespace_in(chars, 0);
    let end = trim_end_in(chars, start, chars.len());
    sub_chars(chars, start, end)
}

/// How two texts compare character by character, by code point: -1 where
/// the first comes first, 0 where they are equal, 1 where the second comes
/// first. This is also the order of their bytes in UTF-8.
pub open spec fn text_order(a: Seq<char>, b: Seq<char>) -> int
    decreases a.len(),
{
    if a.len() == 0 {
        if b.len() == 0 {
            0
        } else {
            -1
        }
    } else if b.len() == 0 {
        1
    } else if (a[0] as u32) < (b[0] as u32) {
        -1
    } else if (a[0] as u32) > (b[0] as u32) {
        1
    } else {
        text_order(a.drop_first(), b.drop_first())
    }
}

/// Compares two texts character by character.
pub fn compare_text(a: &Vec<char>, b: &Vec<char>) -> (order: i8)
    ensures
        order as int == text_order(a@, b@),
{
    let mut i: usize = 0;
    proof {
        assert(a@.subrange(0, a@.len() as int) =~= a@);
        assert(b@.subrange(0, b@.len() as int) =~= b@);
    }
    while i < a.len() && i < b.len()
        invariant
            i <= a@.len(),
            i <= b@.len(),
            text_order(a@, b@) == text_order(
                a@.subrange(i as int, a@.len() as int),
                b@.subrange(i as int, b@.len() as int),
            ),
        decreases a@.len() - i,
    {
        let ghost x = a@.subrange(i as int, a@.len() as int);
        let ghost y = b@.subrange(i as int, b@.len() as int);
        proof {
            assert(x[0] == a@[i as int]);
            assert(y[0] == b@[i as int]);
            assert(x.drop_first() =~= a@.subrange(i + 1, a@.len() as int));
            assert(y.drop_first() =~= b@.subrange(i + 1, b@.len() as int));
        }
        let p = a[i] as u32;
        let q = b[i] as u32;
        if p < q {
            return -1;
        }
        if p > q {
            return 1;
        }
        i = i + 1;
    }
    if i < b.len() {
        -1
    } else if i < a.len() {
        1
    } else {
        0
    }
}

/// How two runs of bytes compare byte by byte: -1 where the first comes
/// first, 0 where they are equal, 1 where the second comes first.
pub open spec fn bytes_order(a: Seq<u8>, b: Seq<u8>) -> int
    decreases a.len(),
{
    if a.len() == 0 {
        if b.len() == 0 {
            0
        } else {
            -1
        }
    } else if b.len() == 0 {
        1
    } else if a[0] < b[0] {
        -1
    } else if a[0] > b[0] {
        1
    } else {
        bytes_order(a.drop_first(), b.drop_first())
    }
}

/// Compares two runs of bytes byte by byte.
pub fn compare_bytes(a: &Vec<u8>, b: &Vec<u8>) -> (order: i8)
    ensures
        order as int == bytes_order(a@, b@),
{
    let mut i: usize = 0;
    proof {
        assert(a@.subrange(0, a@.len() as int) =~= a@);
        assert(b@.subrange(0, b@.len() as int) =~= b@);
    }
    while i < a.len() && i < b.len()
        invariant
            i <= a@.len(),
            i <= b@.len(),
            bytes_order(a@, b@) == bytes_order(
                a@.subrange(i as int, a@.len() as int),
                b@.subrange(i as int, b@.len() as int),
            ),
        decreases a@.len() - i,
    {
        let ghost x = a@.subrange(i as int, a@.len() as int);
        let ghost y = b@.subrange(i as int, b@.len() as int);
        proof {
            assert(x[0] == a@[i as int]);
            assert(y[0] == b@[i as int]);
            assert(x.drop_first() =~= a@.subrange(i + 1, a@.len() as int));
            assert(y.drop_first() =~= b@.subrange(i + 1, b@.len() as int));
        }
        if a[i] < b[i] {
            return -1;
        }
        if a[i] > b[i] {
            return 1;
        }
        i = i + 1;
    }
    if i < b.len() {
        -1
    } else if i < a.len() {
        1
    } else {
        0
    }
}

/// Two texts compare as equal exactly where they are the same.
pub proof fn lemma_text_order_equal(a: Seq<char>, b: Seq<char>)
    ensures
        text_order(a, b) == 0 <==> a == b,
    decreases a.len(),
{
    if a.len() > 0 && b.len() > 0 {
        lemma_text_order_equal(a.drop_first(), b.drop_first());
        if a[0] as u32 == b[0] as u32 {
            char_u32_cast(a[0], a[0] as u32);
            char_u32_cast(b[0], b[0] as u32);
            assert(a[0] == b[0]);
            if a.drop_first() == b.drop_first() {
                assert(a =~= seq![a[0]] + a.drop_first());
                assert(b =~= seq![b[0]] + b.drop_first());
            }
        }
    } else if a.len() == 0 && b.len() == 0 {
        assert(a =~= b);
    }
}

/// Two runs of bytes compare as equal exactly where they are the same.
pub proof fn lemma_bytes_order_equal(a: Seq<u8>, b: Seq<u8>)
    ensures
        bytes_order(a, b) == 0 <==> a == b,
        -1 <= bytes_order(a, b) <= 1,
    decreases a.len(),
{
    if a.len() > 0 && b.len() > 0 {
        lemma_bytes_order_equal(a.drop_first(), b.drop_first());
        if a[0] == b[0] && a.drop_first() == b.drop_first() {
            assert(a =~= seq![a[0]] + a.drop_first());
            assert(b =~= seq![b[0]] + b.drop_first());
        }
    } else if a.len() == 0 && b.len() == 0 {
        assert(a =~= b);
    }
}

/// The digits of a number are a text of digits.
pub proof fn lemma_digits_are_digits(n: nat)
    ensures
        digits_value(digits(n)) is Some,
        digits(n).len() > 0,
        digit(digits(n)[0]),
    decreases n,
{
    if n >= 10 {
        lemma_digits_are_digits(n / 10);
        let all = digits(n);
        assert(all.drop_last() =~= digits(n / 10));
        assert(all.last() == digit_char(n % 10));
        assert(all[0] == digits(n / 10)[0]);
    } else {
        assert(digits(n).last() == digit_char(n));
    }
}

/// The digits of a number spell that number.
pub proof fn lemma_digits_value(n: nat)
    ensures
        digits_value(digits(n)) == Some(n),
    decreases n,
{
    lemma_digits_are_digits(n);
    if n >= 10 {
        lemma_digits_value(n / 10);
        lemma_digits_are_digits(n / 10);
        let all = digits(n);
        assert(all.drop_last() =~= digits(n / 10));
        assert(all.last() == digit_char(n % 10));
    } else {
        assert(digits(n).last() == digit_char(n));
    }
}

/// An integer of 64 bits in decimal is read back as that integer.
pub proof fn lemma_parse_decimal(n: int)
    requires
        i64::MIN <= n <= i64::MAX,
    ensures
        parse_integer(decimal(n)) == Some(n),
{
    let s = decimal(n);
    if n < 0 {
        lemma_digits_value((-n) as nat);
        assert(s.subrange(1, s.len() as int) =~= digits((-n) as nat));
    } else {
        lemma_digits_value(n as nat);
        lemma_digits_are_digits(n as nat);
    }
}

/// The integer that a text spells in the one way in which an integer is
/// shown: in decimal, without a plus sign and without leading zeros.
pub open spec fn shown_integer(s: Seq<char>) -> Option<i64> {
    match parse_integer(s) {
        Some(n) => if decimal(n) == s {
            Some(n as i64)
        } else {
            None
        },
        None => None,
    }
}

/// Reads the integer that a text spells in the way in which an integer is
/// shown.
pub fn integer_shown_as(s: &str) -> (n: Option<i64>)
    ensures
        n == shown_integer(s@),
{
    match integer_of(&chars_of(s)) {
        Some(n) => {
            let back = decimal_text(n);
            if same_text(back.as_str(), s) {
                Some(n)
            } else {
                None
            }
        },
        None => None,
    }
}

} // verus!
