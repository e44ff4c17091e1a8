//! Text as the file formats use it: trimming, words, decimal numerals and the
//! byte order of strings.

use vstd::prelude::*;

verus! {

/// Unicode's `White_Space` property.
pub open spec fn white(c: char) -> bool {
    let u = c as u32;
    ||| 0x09 <= u <= 0x0d
    ||| u == 0x20
    ||| u == 0x85
    ||| u == 0xa0
    ||| u == 0x1680
    ||| 0x2000 <= u <= 0x200a
    ||| u == 0x2028
    ||| u == 0x2029
    ||| u == 0x202f
    ||| u == 0x205f
    ||| u == 0x3000
}

pub fn is_white(c: char) -> (r: bool)
    ensures
        r == white(c),
{
    let u: u32 = c as u32;
    (0x09 <= u && u <= 0x0d) || u == 0x20 || u == 0x85 || u == 0xa0 || u == 0x1680 || (0x2000 <= u
        && u <= 0x200a) || u == 0x2028 || u == 0x2029 || u == 0x202f || u == 0x205f || u == 0x3000
}

/// `s` without its leading white space.
pub open spec fn trim_start(s: Seq<char>) -> Seq<char>
    decreases s.len(),
{
    if s.len() > 0 && white(s[0]) {
        trim_start(s.drop_first())
    } else {
        s
    }
}

/// `s` without its trailing white space.
pub open spec fn trim_end(s: Seq<char>) -> Seq<char>
    decreases s.len(),
{
    if s.len() > 0 && white(s.last()) {
        trim_end(s.drop_last())
    } else {
        s
    }
}

/// `s` without white space at either end.
pub open spec fn trimmed(s: Seq<char>) -> Seq<char> {
    trim_end(trim_start(s))
}

/// How many characters stand before the first white space of `s`.
pub open spec fn word_len(s: Seq<char>) -> int
    decreases s.len(),
{
    if s.len() == 0 || white(s[0]) {
        0
    } else {
        1 + word_len(s.drop_first())
    }
}

proof fn lemma_word_len(s: Seq<char>)
    ensures
        0 <= word_len(s) <= s.len(),
    decreases s.len(),
{
    if s.len() > 0 && !white(s[0]) {
        lemma_word_len(s.drop_first());
    }
}

proof fn lemma_trim_start_len(s: Seq<char>)
    ensures
        trim_start(s).len() <= s.len(),
        trim_start(s).len() > 0 ==> !white(trim_start(s)[0]),
    decreases s.len(),
{
    if s.len() > 0 && white(s[0]) {
        lemma_trim_start_len(s.drop_first());
    }
}

/// The maximal runs of `s` without white space, in order.
pub open spec fn words(s: Seq<char>) -> Seq<Seq<char>>
    decreases s.len(),
    via words_decreases
{
    let t = trim_start(s);
    if t.len() == 0 {
        Seq::empty()
    } else {
        seq![t.take(word_len(t))] + words(t.skip(word_len(t)))
    }
}

#[via_fn]
proof fn words_decreases(s: Seq<char>) {
    lemma_trim_start_len(s);
    let t = trim_start(s);
    if t.len() > 0 {
        lemma_word_len(t.drop_first());
    }
}

/// The strings of a list.
pub open spec fn string_views(strings: Seq<String>) -> Seq<Seq<char>> {
    strings.map_values(|s: String| s@)
}

/// The characters of a string.
pub fn char_vec(s: &str) -> (r: Vec<char>)
    ensures
        r@ == s@,
{
    let mut r: Vec<char> = Vec::new();
    for c in it: s.chars()
        invariant
            r@ == it.seq().take(it.index() as int),
            it.seq() == s@,
    {
        r.push(c);
    }
    r
}

/// Where the trimmed part of `s[from..to]` begins and ends.
fn trim_bounds(s: &Vec<char>, from: usize, to: usize) -> (r: (usize, usize))
    requires
        from <= to <= s.len(),
    ensures
        from <= r.0 <= r.1 <= to,
        s@.subrange(r.0 as int, r.1 as int) == trimmed(s@.subrange(from as int, to as int)),
{
    let a = skip_white(s, from, to);
    let mut b: usize = to;
    let ghost start = s@.subrange(a as int, to as int);
    while b > a && is_white(s[b - 1])
        invariant
            from <= a <= b <= to <= s.len(),
            trim_end(s@.subrange(a as int, b as int)) == trim_end(start),
        decreases b,
    {
        proof {
            assert(s@.subrange(a as int, b as int).drop_last() =~= s@.subrange(
                a as int,
                b as int - 1,
            ));
        }
        b = b - 1;
    }
    (a, b)
}

fn skip_white(s: &Vec<char>, from: usize, to: usize) -> (a: usize)
    requires
        from <= to <= s.len(),
    ensures
        from <= a <= to,
        s@.subrange(a as int, to as int) == trim_start(s@.subrange(from as int, to as int)),
        a < to ==> !white(s@[a as int]),
{
    let mut a: usize = from;
    while a < to && is_white(s[a])
        invariant
            from <= a <= to <= s.len(),
            trim_start(s@.subrange(a as int, to as int)) == trim_start(
                s@.subrange(from as int, to as int),
            ),
        decreases to - a,
    {
        proof {
            assert(s@.subrange(a as int, to as int).drop_first() =~= s@.subrange(
                a as int + 1,
                to as int,
            ));
        }
        a = a + 1;
    }
    a
}

/// A copy of `s` without white space at either end.
pub fn trim(s: &str) -> (r: String)
    ensures
        r@ == trimmed(s@),
{
    let c = char_vec(s);
    let (a, b) = trim_bounds(&c, 0, c.len());
    proof {
        assert(s@.subrange(0, s@.len() as int) =~= s@);
    }
    s.substring_char(a, b).to_owned()
}

/// The words of `s`, split at white space.
pub fn split_words(s: &str) -> (r: Vec<String>)
    ensures
        string_views(r@) == words(s@),
{
    let c = char_vec(s);
    let n: usize = c.len();
    let mut out: Vec<String> = Vec::new();
    let mut at: usize = 0;
    proof {
        assert(s@.subrange(0, n as int) =~= s@);
    }
    loop
        invariant
            c@ == s@,
            n == c.len(),
            at <= n,
            out.len() + words(s@.subrange(at as int, n as int)).len() == words(s@).len(),
            forall|i: int| 0 <= i < out.len() ==> #[trigger] out@[i]@ == words(s@)[i],
            words(s@.subrange(at as int, n as int)) == words(s@).skip(out.len() as int),
        ensures
            at == n,
        decreases n - at,
    {
        let a = skip_white(&c, at, n);
        let ghost t = s@.subrange(a as int, n as int);
        if a == n {
            at = n;
            break ;
        }
        let mut b: usize = a;
        proof {
            lemma_word_len(t);
        }
        while b < n && !is_white(c[b])
            invariant
                c@ == s@,
                n == c.len(),
                a <= b <= n,
                t == s@.subrange(a as int, n as int),
                a < n && !white(s@[a as int]),
                word_len(t) == (b - a) + word_len(s@.subrange(b as int, n as int)),
            decreases n - b,
        {
            proof {
                assert(s@.subrange(b as int, n as int).drop_first() =~= s@.subrange(
                    b as int + 1,
                    n as int,
                ));
            }
            b = b + 1;
        }
        proof {
            assert(t.take(word_len(t)) =~= s@.subrange(a as int, b as int));
            assert(t.skip(word_len(t)) =~= s@.subrange(b as int, n as int));
            let rest = words(s@.subrange(at as int, n as int));
            assert(rest == seq![t.take(word_len(t))] + words(t.skip(word_len(t))));
            assert(rest[0] == words(s@)[out.len() as int]);
            assert(rest.skip(1) =~= words(t.skip(word_len(t))));
            assert(words(s@).skip(out.len() as int).skip(1) =~= words(s@).skip(out.len() as int + 1));
            if b == a {
                assert(!white(t[0]));
                assert(word_len(t) >= 1) by {
                    lemma_word_len(t.drop_first());
                }
            }
        }
        out.push(s.substring_char(a, b).to_owned());
        at = b;
    }
    proof {
        assert(trim_start(s@.subrange(n as int, n as int)).len() == 0);
        assert(string_views(out@) =~= words(s@));
    }
    out
}

/// One of the pieces into which the `separator`s cut `s`, from `a` up to `b`.
pub open spec fn piece(s: Seq<char>, separator: char, a: int, b: int) -> bool {
    &&& 0 <= a <= b <= s.len()
    &&& a == 0 || s[a - 1] == separator
    &&& b == s.len() || s[b] == separator
    &&& forall|i: int| a <= i < b ==> #[trigger] s[i] != separator
}

/// Some piece of `s` between separators is `wanted`, white space aside.
pub open spec fn has_piece(s: Seq<char>, separator: char, wanted: Seq<char>) -> bool {
    exists|a: int, b: int| #[trigger]
        piece(s, separator, a, b) && trimmed(s.subrange(a, b)) == wanted
}

/// Whether one of the pieces of `s` between separators is `wanted`.
pub fn contains_piece(s: &str, separator: char, wanted: &str) -> (r: bool)
    ensures
        r == has_piece(s@, separator, wanted@),
{
    let c = char_vec(s);
    let w = char_vec(wanted);
    let n: usize = c.len();
    let mut a: usize = 0;
    loop
        invariant
            c@ == s@,
            w@ == wanted@,
            n == c.len(),
            a <= n,
            a == 0 || c@[a - 1] == separator,
            forall|p: int, q: int| #[trigger] piece(s@, separator, p, q) && p < a ==> trimmed(
                s@.subrange(p, q),
            ) != wanted@,
        decreases n + 1 - a,
    {
        let mut b: usize = a;
        while b < n && c[b] != separator
            invariant
                n == c.len(),
                a <= b <= n,
                forall|i: int| a <= i < b ==> #[trigger] c@[i] != separator,
            decreases n - b,
        {
            b = b + 1;
        }
        let (x, y) = trim_bounds(&c, a, b);
        let hit = same_range(&c, x, y, &w);
        proof {
            assert(piece(s@, separator, a as int, b as int));
            assert(c@.subrange(x as int, y as int) == trimmed(s@.subrange(a as int, b as int)));
        }
        if hit {
            return true;
        }
        proof {
            assert forall|p: int, q: int| #[trigger] piece(s@, separator, p, q) && p <= b implies trimmed(
                s@.subrange(p, q),
            ) != wanted@ by {
                if p >= a {
                    if p > a {
                        assert(c@[p - 1] == separator);
                    }
                    if q < b {
                        assert(c@[q] != separator);
                    }
                    if q > b {
                        assert(s@[b as int] == separator);
                    }
                    assert(p == a && q == b);
                }
            }
        }
        if b == n {
            return false;
        }
        a = b + 1;
    }
}

fn same_range(s: &Vec<char>, from: usize, to: usize, w: &Vec<char>) -> (r: bool)
    requires
        from <= to <= s.len(),
    ensures
        r == (s@.subrange(from as int, to as int) == w@),
{
    if to - from != w.len() {
        return false;
    }
    let mut i: usize = 0;
    while i < w.len()
        invariant
            from <= to <= s.len(),
            to - from == w.len(),
            i <= w.len(),
            forall|k: int| 0 <= k < i ==> s@[from + k] == #[trigger] w@[k],
        decreases w.len() - i,
    {
        if s[from + i] != w[i] {
            proof {
                assert(s@.subrange(from as int, to as int)[i as int] != w@[i as int]);
            }
            return false;
        }
        i = i + 1;
    }
    proof {
        assert(s@.subrange(from as int, to as int) =~= w@);
    }
    true
}

/// The number that a string of code points writes in decimal: digits, with one
/// optional leading `+`.
pub open spec fn numeral(codes: Seq<u32>) -> Option<nat> {
    let digits = if codes.len() > 1 && codes[0] == 0x2b {
        codes.drop_first()
    } else {
        codes
    };
    if digits.len() > 0 && all_digits(digits) {
        Some(digits_value(digits))
    } else {
        None
    }
}

pub open spec fn all_digits(codes: Seq<u32>) -> bool {
    forall|i: int| 0 <= i < codes.len() ==> 0x30 <= #[trigger] codes[i] <= 0x39
}

pub open spec fn digits_value(codes: Seq<u32>) -> nat
    decreases codes.len(),
{
    if codes.len() == 0 {
        0
    } else {
        digits_value(codes.drop_last()) * 10 + (codes.last() - 0x30) as nat
    }
}

/// Parse an unsigned decimal numeral that may be at most `max`.
pub fn parse_unsigned(codes: &Vec<u32>, max: u64) -> (r: Option<u64>)
    ensures
        match numeral(codes@) {
            Some(v) => if v <= max {
                r == Some(v as u64)
            } else {
                r is None
            },
            None => r is None,
        },
{
    let start: usize = if codes.len() > 1 && codes[0] == 0x2b {
        1
    } else {
        0
    };
    let ghost digits = codes@.skip(start as int);
    proof {
        if start == 1 {
            assert(digits =~= codes@.drop_first());
        } else {
            assert(digits =~= codes@);
        }
    }
    if start == codes.len() {
        return None;
    }
    let mut i: usize = start;
    let mut v: u64 = 0;
    let mut over = false;
    while i < codes.len()
        invariant
            start <= i <= codes.len(),
            digits == codes@.skip(start as int),
            all_digits(digits) || numeral(codes@) is None,
            over ==> digits_value(digits.take(i - start)) > max,
            !over ==> v == digits_value(digits.take(i - start)) && v <= max,
            forall|k: int| 0 <= k < i - start ==> 0x30 <= #[trigger] digits[k] <= 0x39,
        decreases codes.len() - i,
    {
        let c: u32 = codes[i];
        proof {
            assert(digits[i - start] == c);
        }
        if c < 0x30 || c > 0x39 {
            return None;
        }
        proof {
            assert(digits.take(i - start + 1).drop_last() =~= digits.take(i - start));
        }
        if !over {
            let w: u128 = v as u128 * 10 + (c - 0x30) as u128;
            if w > max as u128 {
                over = true;
            } else {
                v = w as u64;
            }
        }
        i = i + 1;
    }
    proof {
        assert(digits.take(i - start) =~= digits);
    }
    if over {
        None
    } else {
        Some(v)
    }
}

/// The code points of a string.
pub open spec fn code_points(s: Seq<char>) -> Seq<u32> {
    s.map_values(|c: char| c as u32)
}

/// Parse a string as an unsigned numeral that may be at most `max`.
pub fn parse_text(s: &str, max: u64) -> (r: Option<u64>)
    ensures
        match numeral(code_points(s@)) {
            Some(v) => if v <= max {
                r == Some(v as u64)
            } else {
                r is None
            },
            None => r is None,
        },
{
    let mut codes: Vec<u32> = Vec::new();
    for c in it: s.chars()
        invariant
            codes@ == code_points(it.seq().take(it.index() as int)),
            it.seq() == s@,
    {
        let u: u32 = c as u32;
        codes.push(u);
    }
    proof {
        assert(s@.take(s@.len() as int) =~= s@);
    }
    parse_unsigned(&codes, max)
}

/// Strings are equal when their characters are.
pub fn same_text(a: &str, b: &str) -> (r: bool)
    ensures
        r == (a@ == b@),
{
    let x = a.as_bytes();
    let y = b.as_bytes();
    let r = same_bytes(x, y);
    proof {
        vstd::utf8::encode_utf8_decode_utf8(a@);
        vstd::utf8::encode_utf8_decode_utf8(b@);
    }
    r
}

pub fn same_bytes(a: &[u8], b: &[u8]) -> (r: bool)
    ensures
        r == (a@ == b@),
{
    if a.len() != b.len() {
        return false;
    }
    let mut i: usize = 0;
    while i < a.len()
        invariant
            a.len() == b.len(),
            i <= a.len(),
            forall|k: int| 0 <= k < i ==> a@[k] == #[trigger] b@[k],
        decreases a.len() - i,
    {
        if a[i] != b[i] {
            return false;
        }
        i = i + 1;
    }
    proof {
        assert(a@ =~= b@);
    }
    true
}

/// ASCII lower case.
pub open spec fn lower(c: char) -> char {
    if 'A' <= c && c <= 'Z' {
        ((c as u32 + 32) as u32) as char
    } else {
        c
    }
}

pub fn to_lower(c: char) -> (r: char)
    ensures
        r == lower(c),
{
    match c {
        'A' => 'a',
        'B' => 'b',
        'C' => 'c',
        'D' => 'd',
        'E' => 'e',
        'F' => 'f',
        'G' => 'g',
        'H' => 'h',
        'I' => 'i',
        'J' => 'j',
        'K' => 'k',
        'L' => 'l',
        'M' => 'm',
        'N' => 'n',
        'O' => 'o',
        'P' => 'p',
        'Q' => 'q',
        'R' => 'r',
        'S' => 's',
        'T' => 't',
        'U' => 'u',
        'V' => 'v',
        'W' => 'w',
        'X' => 'x',
        'Y' => 'y',
        'Z' => 'z',
        _ => c,
    }
}

/// Whether two strings are equal but for the case of ASCII letters.
pub fn same_ignoring_case(a: &str, b: &str) -> (r: bool)
    ensures
        r == (a@.map_values(|c: char| lower(c)) == b@.map_values(|c: char| lower(c))),
{
    let x = char_vec(a);
    let y = char_vec(b);
    let ghost low = a@.map_values(|c: char| lower(c));
    let ghost high = b@.map_values(|c: char| lower(c));
    if x.len() != y.len() {
        proof {
            assert(low.len() != high.len());
        }
        return false;
    }
    let mut i: usize = 0;
    while i < x.len()
        invariant
            x@ == a@,
            y@ == b@,
            x.len() == y.len(),
            low == a@.map_values(|c: char| lower(c)),
            high == b@.map_values(|c: char| lower(c)),
            i <= x.len(),
            forall|k: int| 0 <= k < i ==> low[k] == #[trigger] high[k],
        decreases x.len() - i,
    {
        if to_lower(x[i]) != to_lower(y[i]) {
            proof {
                assert(low[i as int] != high[i as int]);
            }
            return false;
        }
        i = i + 1;
    }
    proof {
        assert(low =~= high);
    }
    true
}

/// Byte-wise lexicographic order, the order of strings.
pub open spec fn bytes_at_most(a: Seq<u8>, b: Seq<u8>) -> bool
    decreases a.len(),
{
    if a.len() == 0 {
        true
    } else if b.len() == 0 {
        false
    } else if a[0] != b[0] {
        a[0] < b[0]
    } else {
        bytes_at_most(a.drop_first(), b.drop_first())
    }
}

/// Of two strings one comes no later than the other.
pub proof fn bytes_order_total(a: Seq<u8>, b: Seq<u8>)
    ensures
        bytes_at_most(a, b) || bytes_at_most(b, a),
    decreases a.len(),
{
    if a.len() > 0 && b.len() > 0 && a[0] == b[0] {
        bytes_order_total(a.drop_first(), b.drop_first());
    }
}

/// The order of strings is transitive.
pub proof fn bytes_order_transitive(a: Seq<u8>, b: Seq<u8>, c: Seq<u8>)
    requires
        bytes_at_most(a, b),
        bytes_at_most(b, c),
    ensures
        bytes_at_most(a, c),
    decreases a.len(),
{
    if a.len() > 0 && b.len() > 0 && c.len() > 0 && a[0] == b[0] && b[0] == c[0] {
        bytes_order_transitive(a.drop_first(), b.drop_first(), c.drop_first());
    }
}

/// Only equal strings come no later than each other.
pub proof fn bytes_order_antisymmetric(a: Seq<u8>, b: Seq<u8>)
    requires
        bytes_at_most(a, b),
        bytes_at_most(b, a),
    ensures
        a == b,
    decreases a.len(),
{
    if a.len() == 0 {
        assert(a =~= b);
    } else {
        bytes_order_antisymmetric(a.drop_first(), b.drop_first());
        assert(a =~= seq![a[0]] + a.drop_first());
        assert(b =~= seq![b[0]] + b.drop_first());
    }
}

/// Whether `a` comes no later than `b` in the order of strings.
pub fn text_at_most(a: &str, b: &str) -> (r: bool)
    ensures
        r == bytes_at_most(vstd::utf8::encode_utf8(a@), vstd::utf8::encode_utf8(b@)),
{
    let x = a.as_bytes();
    let y = b.as_bytes();
    let mut i: usize = 0;
    proof {
        assert(x@.skip(0) =~= x@);
        assert(y@.skip(0) =~= y@);
    }
    while i < x.len()
        invariant
            i <= x.len(),
            i <= y.len(),
            x@ == vstd::utf8::encode_utf8(a@),
            y@ == vstd::utf8::encode_utf8(b@),
            bytes_at_most(x@.skip(i as int), y@.skip(i as int)) == bytes_at_most(x@, y@),
        decreases x.len() - i,
    {
        if i == y.len() {
            return false;
        }
        if x[i] != y[i] {
            return x[i] < y[i];
        }
        proof {
            assert(x@.skip(i as int).drop_first() =~= x@.skip(i as int + 1));
            assert(y@.skip(i as int).drop_first() =~= y@.skip(i as int + 1));
        }
        i = i + 1;
    }
    true
}

/// The white space: six ASCII characters, and nineteen others.
pub proof fn white_space_is_unicodes(c: char)
    ensures
        (c as u32) < 0x80 ==> (white(c) <==> c == ' ' || 9 <= c as u32 <= 13),
        0x80 <= c as u32 <= 0xff ==> (white(c) <==> c as u32 == 0x85 || c as u32 == 0xa0),
        c as u32 > 0xff ==> (white(c) <==> c as u32 == 0x1680 || 0x2000 <= c as u32 <= 0x200a || c as u32
            == 0x2028 || c as u32 == 0x2029 || c as u32 == 0x202f || c as u32 == 0x205f || c as u32
            == 0x3000),
{
}

proof fn lemma_trim_start(s: Seq<char>)
    ensures
        exists|a: int| #[trigger]
            trims_to(s, a, s.len() as int) && trim_start(s) == s.subrange(a, s.len() as int) && (a
                < s.len() ==> !white(s[a])),
    decreases s.len(),
{
    let n = s.len() as int;
    if n > 0 && white(s[0]) {
        let t = s.drop_first();
        lemma_trim_start(t);
        let a = choose|a: int| #[trigger]
            trims_to(t, a, t.len() as int) && trim_start(t) == t.subrange(a, t.len() as int) && (a
                < t.len() ==> !white(t[a]));
        assert(t.subrange(a, t.len() as int) =~= s.subrange(a + 1, n));
        assert forall|i: int| 0 <= i < a + 1 implies white(#[trigger] s[i]) by {
            if i > 0 {
                assert(t[i - 1] == s[i]);
            }
        }
        assert(trims_to(s, a + 1, n));
    } else {
        assert(s.subrange(0, n) =~= s);
        assert(trims_to(s, 0, n));
    }
}

proof fn lemma_trim_end(s: Seq<char>)
    ensures
        exists|b: int| #[trigger]
            trims_to(s, 0, b) && trim_end(s) == s.subrange(0, b) && (b > 0 ==> !white(s[b - 1])),
    decreases s.len(),
{
    let n = s.len() as int;
    if n > 0 && white(s.last()) {
        let t = s.drop_last();
        lemma_trim_end(t);
        let b = choose|b: int| #[trigger]
            trims_to(t, 0, b) && trim_end(t) == t.subrange(0, b) && (b > 0 ==> !white(t[b - 1]));
        assert(t.subrange(0, b) =~= s.subrange(0, b));
        assert forall|i: int| b <= i < n implies white(#[trigger] s[i]) by {
            if i < n - 1 {
                assert(t[i] == s[i]);
            }
        }
        assert(trims_to(s, 0, b));
    } else {
        assert(s.subrange(0, n) =~= s);
        assert(trims_to(s, 0, n));
    }
}

/// Outside the stretch from `a` to `b` there is nothing but white space.
pub open spec fn trims_to(s: Seq<char>, a: int, b: int) -> bool {
    &&& 0 <= a <= b <= s.len()
    &&& forall|i: int| 0 <= i < a || b <= i < s.len() ==> white(#[trigger] s[i])
}

/// Trimming takes white space off both ends, all of it and nothing else.
pub proof fn trimming_takes_only_white_space(s: Seq<char>)
    ensures
        exists|a: int, b: int| #[trigger] trims_to(s, a, b) && trimmed(s) == s.subrange(a, b),
        trimmed(s).len() > 0 ==> !white(trimmed(s)[0]) && !white(trimmed(s).last()),
{
    let n = s.len() as int;
    lemma_trim_start(s);
    let a = choose|a: int| #[trigger]
        trims_to(s, a, n) && trim_start(s) == s.subrange(a, n) && (a < n ==> !white(s[a]));
    let t = trim_start(s);
    lemma_trim_end(t);
    let b = choose|b: int| #[trigger]
        trims_to(t, 0, b) && trim_end(t) == t.subrange(0, b) && (b > 0 ==> !white(t[b - 1]));
    assert(t.subrange(0, b) =~= s.subrange(a, a + b));
    assert forall|i: int| 0 <= i < a || a + b <= i < n implies white(#[trigger] s[i]) by {
        if i >= a {
            assert(t[i - a] == s[i]);
        }
    }
    assert(trims_to(s, a, a + b));
}

/// White space before the first word makes no difference to the words, and text without
/// characters has none.
pub proof fn leading_white_space_is_skipped(c: char, s: Seq<char>)
    requires
        white(c),
    ensures
        words(seq![c] + s) == words(s),
        words(Seq::empty()).len() == 0,
{
    assert((seq![c] + s).drop_first() =~= s);
    assert(trim_start(seq![c] + s) == trim_start(s));
}

proof fn lemma_word_len_is(w: Seq<char>, rest: Seq<char>)
    requires
        forall|i: int| 0 <= i < w.len() ==> !white(#[trigger] w[i]),
        rest.len() == 0 || white(rest[0]),
    ensures
        word_len(w + rest) == w.len(),
    decreases w.len(),
{
    let s = w + rest;
    if w.len() > 0 {
        assert(s[0] == w[0]);
        assert(s.drop_first() =~= w.drop_first() + rest);
        lemma_word_len_is(w.drop_first(), rest);
    } else {
        assert(s =~= rest);
    }
}

/// A run of characters that are not white space, up to white space or the end, is the
/// first word; the words of what follows come after it.
pub proof fn words_are_maximal_runs(w: Seq<char>, rest: Seq<char>)
    requires
        w.len() > 0,
        forall|i: int| 0 <= i < w.len() ==> !white(#[trigger] w[i]),
        rest.len() == 0 || white(rest[0]),
    ensures
        words(w + rest) == seq![w] + words(rest),
{
    let s = w + rest;
    assert(s[0] == w[0]);
    lemma_word_len_is(w, rest);
    assert(trim_start(s) == s);
    assert(s.take(w.len() as int) =~= w);
    assert(s.skip(w.len() as int) =~= rest);
}

/// Decimal places: a digit put behind a numeral makes its value tenfold and adds the
/// digit's own.
pub proof fn digits_are_decimal_places(codes: Seq<u32>, digit: u32)
    requires
        0x30 <= digit <= 0x39,
    ensures
        digits_value(codes.push(digit)) == 10 * digits_value(codes) + (digit - 0x30),
        digits_value(Seq::empty()) == 0,
{
    assert(codes.push(digit).drop_last() =~= codes);
}

/// A numeral is one or more digits, behind a plus sign or not; anything else is none.
pub proof fn numerals_are_digits(codes: Seq<u32>)
    ensures
        codes.len() > 0 && (forall|i: int| 0 <= i < codes.len() ==> 0x30 <= #[trigger] codes[i] <= 0x39)
            ==> numeral(codes) == Some(digits_value(codes)) && numeral(seq![0x2bu32] + codes)
            == Some(digits_value(codes)),
        codes.len() == 0 ==> numeral(codes) is None,
        (exists|i: int|
            0 <= i < codes.len() && !(0x30 <= #[trigger] codes[i] <= 0x39) && (i > 0 || codes[i] != 0x2b))
            ==> numeral(codes) is None,
        numeral(seq![0x2bu32]) is None,
{
    assert((seq![0x2bu32] + codes).drop_first() =~= codes);
    if exists|i: int|
        0 <= i < codes.len() && !(0x30 <= #[trigger] codes[i] <= 0x39) && (i > 0 || codes[i] != 0x2b) {
        let i = choose|i: int|
            0 <= i < codes.len() && !(0x30 <= #[trigger] codes[i] <= 0x39) && (i > 0 || codes[i] != 0x2b);
        if codes.len() > 1 && codes[0] == 0x2b {
            assert(codes.drop_first()[i - 1] == codes[i]);
        }
    }
    assert(seq![0x2bu32][0] == 0x2b);
}

/// Case is that of the twenty-six ASCII letters: capitals have a small letter 32 code
/// points above them, and everything else stays.
pub proof fn only_ascii_capitals_change(c: char)
    ensures
        0x41 <= c as u32 <= 0x5a ==> lower(c) as u32 == c as u32 + 32,
        !(0x41 <= c as u32 <= 0x5a) ==> lower(c) == c,
        lower(lower(c)) == lower(c),
{
}

/// The order of strings: the first byte in which they differ decides, and the beginning
/// of a string comes before the whole.
pub proof fn first_difference_decides(common: Seq<u8>, a: Seq<u8>, b: Seq<u8>)
    ensures
        a.len() > 0 && b.len() > 0 && a[0] < b[0] ==> bytes_at_most(common + a, common + b)
            && !bytes_at_most(common + b, common + a),
        bytes_at_most(common, common + a),
        a.len() > 0 ==> !bytes_at_most(common + a, common),
    decreases common.len(),
{
    if common.len() > 0 {
        let rest = common.drop_first();
        first_difference_decides(rest, a, b);
        assert((common + a).drop_first() =~= rest + a);
        assert((common + b).drop_first() =~= rest + b);
    } else {
        assert(common + a =~= a);
        assert(common + b =~= b);
    }
}

/// Text without a separator is one piece.
pub proof fn text_without_separator_is_one_piece(
    s: Seq<char>,
    separator: char,
    wanted: Seq<char>,
)
    requires
        forall|i: int| 0 <= i < s.len() ==> #[trigger] s[i] != separator,
    ensures
        has_piece(s, separator, wanted) <==> trimmed(s) == wanted,
{
    let n = s.len() as int;
    assert(s.subrange(0, n) =~= s);
    assert(piece(s, separator, 0, n));
    if has_piece(s, separator, wanted) {
        let (a, b) = choose|a: int, b: int| #[trigger]
            piece(s, separator, a, b) && trimmed(s.subrange(a, b)) == wanted;
        if a > 0 {
            assert(s[a - 1] != separator);
        }
        if b < n {
            assert(s[b] != separator);
        }
    }
}

/// A separator parts the pieces before it from those after it.
#[verifier::rlimit(40)]
pub proof fn separators_part_pieces(
    left: Seq<char>,
    right: Seq<char>,
    separator: char,
    wanted: Seq<char>,
)
    ensures
        has_piece(left + seq![separator] + right, separator, wanted) <==> has_piece(
            left,
            separator,
            wanted,
        ) || has_piece(right, separator, wanted),
{
    let s = left + seq![separator] + right;
    let m = left.len() as int;
    assert(s[m] == separator);
    assert(forall|i: int| 0 <= i < m ==> #[trigger] s[i] == left[i]);
    assert(forall|i: int| 0 <= i < right.len() ==> s[m + 1 + i] == #[trigger] right[i]);
    if has_piece(s, separator, wanted) {
        let (a, b) = choose|a: int, b: int| #[trigger]
            piece(s, separator, a, b) && trimmed(s.subrange(a, b)) == wanted;
        if a <= m {
            if b > m {
                assert(s[m] != separator);
            }
            assert(left.subrange(a, b) =~= s.subrange(a, b));
            assert forall|i: int| a <= i < b implies #[trigger] left[i] != separator by {
                assert(s[i] != separator);
            }
            assert(piece(left, separator, a, b));
        } else {
            let (x, y) = (a - m - 1, b - m - 1);
            assert(right.subrange(x, y) =~= s.subrange(a, b));
            assert forall|i: int| x <= i < y implies #[trigger] right[i] != separator by {
                assert(s[m + 1 + i] != separator);
            }
            if x > 0 {
                assert(right[x - 1] == s[a - 1]);
            }
            if y < right.len() {
                assert(right[y] == s[b]);
            }
            assert(piece(right, separator, x, y));
        }
    }
    if has_piece(left, separator, wanted) {
        let (a, b) = choose|a: int, b: int| #[trigger]
            piece(left, separator, a, b) && trimmed(left.subrange(a, b)) == wanted;
        assert(left.subrange(a, b) =~= s.subrange(a, b));
        assert forall|i: int| a <= i < b implies #[trigger] s[i] != separator by {
            assert(left[i] != separator);
        }
        assert(piece(s, separator, a, b));
    }
    if has_piece(right, separator, wanted) {
        let (x, y) = choose|a: int, b: int| #[trigger]
            piece(right, separator, a, b) && trimmed(right.subrange(a, b)) == wanted;
        let (a, b) = (x + m + 1, y + m + 1);
        assert(right.subrange(x, y) =~= s.subrange(a, b));
        assert forall|i: int| a <= i < b implies #[trigger] s[i] != separator by {
            assert(right[i - m - 1] != separator);
        }
        if x > 0 {
            assert(right[x - 1] == s[a - 1]);
        }
        if y < right.len() {
            assert(right[y] == s[b]);
        }
        assert(piece(s, separator, a, b));
    }
}

/// Strings are the same but for case exactly if they are as long and agree character by
/// character, capitals counting as their small letters.
pub proof fn case_is_all_that_may_differ(a: &str, b: &str, r: bool)
    requires
        call_ensures(same_ignoring_case, (a, b), r),
    ensures
        r <==> a@.len() == b@.len() && forall|i: int|
            0 <= i < a@.len() ==> lower(#[trigger] a@[i]) == lower(b@[i]),
{
    let low = a@.map_values(|c: char| lower(c));
    let high = b@.map_values(|c: char| lower(c));
    if low == high {
        assert(low.len() == high.len());
        assert forall|i: int| 0 <= i < a@.len() implies lower(#[trigger] a@[i]) == lower(b@[i]) by {
            assert(low[i] == high[i]);
        }
    }
    if a@.len() == b@.len() && forall|i: int|
        0 <= i < a@.len() ==> lower(#[trigger] a@[i]) == lower(b@[i]) {
        assert(low =~= high);
    }
}

/// A numeral is read up to a limit and not beyond it; what is no numeral is not read.
pub proof fn numerals_are_read_up_to_a_limit(codes: &Vec<u32>, max: u64, r: Option<u64>)
    requires
        call_ensures(parse_unsigned, (codes, max), r),
        codes.len() > 0,
        forall|i: int| 0 <= i < codes.len() ==> 0x30 <= #[trigger] codes@[i] <= 0x39,
    ensures
        r is Some <==> digits_value(codes@) <= max,
        r matches Some(v) ==> v == digits_value(codes@),
{
    numerals_are_digits(codes@);
}

}
