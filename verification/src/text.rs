//! Character and byte helpers shared by the object formats: UTF-8 facts,
//! searching, decimal numbers, and the line and whitespace rules of `str`.
use vstd::prelude::*;
use vstd::utf8::*;

verus! {

broadcast use vstd::utf8::encode_utf8_valid_utf8, vstd::utf8::encode_utf8_decode_utf8;

/// The bytes of a character sequence as `str` stores them.
pub open spec fn utf8(s: Seq<char>) -> Seq<u8> {
    encode_utf8(s)
}

/// Encoding distributes over concatenation.
pub proof fn lemma_utf8_concat(a: Seq<char>, b: Seq<char>)
    ensures
        encode_utf8(a + b) == encode_utf8(a) + encode_utf8(b),
    decreases a.len(),
{
    if a.len() == 0 {
        assert(a + b =~= b);
        assert(encode_utf8(a) =~= Seq::<u8>::empty());
        assert(encode_utf8(a) + encode_utf8(b) =~= encode_utf8(b));
    } else {
        assert((a + b).drop_first() =~= a.drop_first() + b);
        lemma_utf8_concat(a.drop_first(), b);
        assert((a + b)[0] == a[0]);
        assert(encode_utf8(a + b) =~= encode_scalar(a[0] as u32) + encode_utf8(a.drop_first() + b));
        assert(encode_utf8(a) =~= encode_scalar(a[0] as u32) + encode_utf8(a.drop_first()));
        assert(encode_utf8(a + b) =~= encode_utf8(a) + encode_utf8(b));
    }
}

/// A character below 0x80 is stored as the one byte of the same value.
pub proof fn lemma_utf8_ascii_char(c: char)
    requires
        (c as u32) < 0x80,
    ensures
        encode_utf8(seq![c]) == seq![c as u8],
{
    let u = c as u32;
    assert(seq![c].drop_first() =~= Seq::<char>::empty());
    assert(encode_utf8(Seq::<char>::empty()) =~= Seq::<u8>::empty());
    assert((u & 0x7F) as u8 == u as u8) by (bit_vector)
        requires
            u < 0x80,
    ;
    assert(encode_utf8(seq![c]) =~= seq![c as u8]);
}

/// True when every character is below 0x80.
pub open spec fn all_ascii(s: Seq<char>) -> bool {
    forall|i: int| 0 <= i < s.len() ==> (#[trigger] s[i] as u32) < 0x80
}

/// The bytes of an ASCII sequence are its characters, one each.
pub proof fn lemma_utf8_ascii(s: Seq<char>)
    requires
        all_ascii(s),
    ensures
        encode_utf8(s) == Seq::new(s.len(), |i: int| s[i] as u8),
    decreases s.len(),
{
    if s.len() == 0 {
        assert(encode_utf8(s) =~= Seq::new(s.len(), |i: int| s[i] as u8));
    } else {
        lemma_utf8_ascii(s.drop_first());
        assert(s =~= seq![s[0]] + s.drop_first());
        lemma_utf8_concat(seq![s[0]], s.drop_first());
        lemma_utf8_ascii_char(s[0]);
        assert(encode_utf8(s) =~= Seq::new(s.len(), |i: int| s[i] as u8));
    }
}

/// The bytes of one scalar: a single byte equal to it below 0x80, or bytes
/// that are all at least 0x80.
proof fn lemma_scalar_bytes(c: char)
    ensures
        (c as u32) < 0x80 ==> encode_scalar(c as u32) == seq![c as u8],
        (c as u32) >= 0x80 ==> forall|j: int|
            0 <= j < encode_scalar(c as u32).len() ==> #[trigger] encode_scalar(c as u32)[j] >= 0x80,
{
    let u = c as u32;
    if u < 0x80 {
        lemma_utf8_ascii_char(c);
        assert(seq![c].drop_first() =~= Seq::<char>::empty());
        assert(encode_utf8(seq![c]) =~= encode_scalar(u) + encode_utf8(Seq::<char>::empty()));
        assert(encode_utf8(Seq::<char>::empty()) =~= Seq::<u8>::empty());
        assert(encode_scalar(u) =~= encode_utf8(seq![c]));
    } else {
        assert((0xC0 | ((u >> 6) & 0x1F) as u8) >= 0x80) by (bit_vector);
        assert((0xE0 | ((u >> 12) & 0x0F) as u8) >= 0x80) by (bit_vector);
        assert((0xF0 | ((u >> 18) & 0x7) as u8) >= 0x80) by (bit_vector);
        assert((0x80 | (u & 0x3F) as u8) >= 0x80) by (bit_vector);
        assert((0x80 | ((u >> 6) & 0x3F) as u8) >= 0x80) by (bit_vector);
        assert((0x80 | ((u >> 12) & 0x3F) as u8) >= 0x80) by (bit_vector);
    }
}

/// An ASCII byte occurs in the encoding of a sequence exactly where the
/// sequence has that character: if the character is absent, so is the byte.
pub proof fn lemma_utf8_lacks_ascii(s: Seq<char>, c: char)
    requires
        (c as u32) < 0x80,
        !s.contains(c),
    ensures
        !encode_utf8(s).contains(c as u8),
    decreases s.len(),
{
    if s.len() > 0 {
        assert(!s.drop_first().contains(c)) by {
            if s.drop_first().contains(c) {
                let k = choose|k: int| 0 <= k < s.drop_first().len() && s.drop_first()[k] == c;
                assert(s[k + 1] == c);
            }
        }
        lemma_utf8_lacks_ascii(s.drop_first(), c);
        lemma_scalar_bytes(s[0]);
        let e = encode_scalar(s[0] as u32);
        let rest = encode_utf8(s.drop_first());
        assert(encode_utf8(s) == e + rest);
        if encode_utf8(s).contains(c as u8) {
            let k = choose|k: int| 0 <= k < encode_utf8(s).len() && encode_utf8(s)[k] == c as u8;
            if k < e.len() {
                assert(e[k] == c as u8);
                if (s[0] as u32) < 0x80 {
                    assert(s[0] as u8 == c as u8);
                    assert(s[0] == c) by {
                        let a = s[0] as u32;
                        let b = c as u32;
                        assert(a as u8 == b as u8 ==> a == b) by (bit_vector)
                            requires
                                a < 0x80,
                                b < 0x80,
                        ;
                        vstd::utf8::char_u32_cast(s[0], a);
                        vstd::utf8::char_u32_cast(c, b);
                    }
                    assert(s.contains(c));
                }
            } else {
                assert(rest[k - e.len()] == c as u8);
            }
        }
    }
}

/// The position of the first `x` in `s`, if any.
pub open spec fn first_index<T>(s: Seq<T>, x: T) -> Option<int>
    decreases s.len(),
{
    if s.len() == 0 {
        None
    } else if s[0] == x {
        Some(0)
    } else {
        match first_index(s.drop_first(), x) {
            Some(i) => Some(i + 1),
            None => None,
        }
    }
}

/// What `first_index` is, in terms of positions.
pub proof fn lemma_first_index<T>(s: Seq<T>, x: T)
    ensures
        first_index(s, x) is None <==> !s.contains(x),
        first_index(s, x) matches Some(i) ==> 0 <= i < s.len() && s[i] == x && forall|j: int|
            0 <= j < i ==> s[j] != x,
    decreases s.len(),
{
    if s.len() > 0 {
        lemma_first_index(s.drop_first(), x);
        if s[0] != x {
            if s.contains(x) {
                let k = choose|k: int| 0 <= k < s.len() && s[k] == x;
                assert(s.drop_first()[k - 1] == x);
            }
            if s.drop_first().contains(x) {
                let k = choose|k: int| 0 <= k < s.drop_first().len() && s.drop_first()[k] == x;
                assert(s[k + 1] == x);
            }
            match first_index(s.drop_first(), x) {
                Some(i) => {
                    assert forall|j: int| 0 <= j < i + 1 implies s[j] != x by {
                        if j > 0 {
                            assert(s[j] == s.drop_first()[j - 1]);
                        }
                    }
                },
                None => {},
            }
        } else {
            assert(s.contains(x)) by {
                assert(s[0] == x);
            }
        }
    }
}

/// A position that holds `x` with none before it is the first index of `x`.
pub proof fn lemma_first_index_at<T>(s: Seq<T>, x: T, i: int)
    requires
        0 <= i < s.len(),
        s[i] == x,
        forall|j: int| 0 <= j < i ==> s[j] != x,
    ensures
        first_index(s, x) == Some(i),
{
    lemma_first_index(s, x);
    assert(s.contains(x));
    let k = first_index(s, x)->0;
    if k < i {
        assert(s[k] != x);
    }
    if k > i {
        assert(s[i] != x);
    }
}

/// The first index of `x` in `a + b`, where `a` lacks `x`, is found in `b`.
pub proof fn lemma_first_index_after<T>(a: Seq<T>, b: Seq<T>, x: T)
    requires
        !a.contains(x),
    ensures
        first_index(a + b, x) == (match first_index(b, x) {
            Some(i) => Some(i + a.len()),
            None => None::<int>,
        }),
{
    lemma_first_index(b, x);
    lemma_first_index(a + b, x);
    match first_index(b, x) {
        Some(i) => {
            assert forall|j: int| 0 <= j < i + a.len() implies (a + b)[j] != x by {
                if j < a.len() {
                    assert((a + b)[j] == a[j]);
                    if a[j] == x {
                        assert(a.contains(x));
                    }
                } else {
                    assert((a + b)[j] == b[j - a.len()]);
                }
            }
            lemma_first_index_at(a + b, x, i + a.len());
        },
        None => {
            if (a + b).contains(x) {
                let k = choose|k: int| 0 <= k < (a + b).len() && (a + b)[k] == x;
                if k < a.len() {
                    assert(a[k] == x);
                } else {
                    assert(b[k - a.len()] == x);
                }
            }
        },
    }
}

/// The first index of `x` in a byte slice at or after `from`.
pub fn find_byte(bytes: &[u8], x: u8, from: usize) -> (r: Option<usize>)
    requires
        from <= bytes@.len(),
    ensures
        r == (match first_index(bytes@.subrange(from as int, bytes@.len() as int), x) {
            Some(i) => Some((i + from) as usize),
            None => None::<usize>,
        }),
        r matches Some(p) ==> from <= p < bytes@.len() && bytes@[p as int] == x && forall|j: int|
            from <= j < p ==> bytes@[j] != x,
        r is None ==> forall|j: int| from <= j < bytes@.len() ==> bytes@[j] != x,
{
    let ghost tail = bytes@.subrange(from as int, bytes@.len() as int);
    let mut i = from;
    while i < bytes.len()
        invariant
            from <= i <= bytes@.len(),
            tail == bytes@.subrange(from as int, bytes@.len() as int),
            forall|j: int| from <= j < i ==> bytes@[j] != x,
        decreases bytes@.len() - i,
    {
        if bytes[i] == x {
            proof {
                assert forall|j: int| 0 <= j < i - from implies tail[j] != x by {
                    assert(tail[j] == bytes@[j + from]);
                }
                lemma_first_index_at(tail, x, i - from);
            }
            return Some(i);
        }
        i = i + 1;
    }
    proof {
        lemma_first_index(tail, x);
        if tail.contains(x) {
            let k = choose|k: int| 0 <= k < tail.len() && tail[k] == x;
            assert(bytes@[k + from] == x);
        }
    }
    None
}

/// The first index of `c` in `s` at or after `from`, counted in characters.
pub fn find_char(s: &str, c: char, from: usize) -> (r: Option<usize>)
    requires
        from <= s@.len(),
    ensures
        r == (match first_index(s@.subrange(from as int, s@.len() as int), c) {
            Some(i) => Some((i + from) as usize),
            None => None::<usize>,
        }),
        r matches Some(p) ==> from <= p < s@.len() && s@[p as int] == c && forall|j: int|
            from <= j < p ==> s@[j] != c,
        r is None ==> forall|j: int| from <= j < s@.len() ==> s@[j] != c,
{
    let ghost tail = s@.subrange(from as int, s@.len() as int);
    let n = s.unicode_len();
    let mut i = from;
    while i < n
        invariant
            from <= i <= n,
            n == s@.len(),
            tail == s@.subrange(from as int, s@.len() as int),
            forall|j: int| from <= j < i ==> s@[j] != c,
        decreases n - i,
    {
        if s.get_char(i) == c {
            proof {
                assert forall|j: int| 0 <= j < i - from implies tail[j] != c by {
                    assert(tail[j] == s@[j + from]);
                }
                lemma_first_index_at(tail, c, i - from);
            }
            return Some(i);
        }
        i = i + 1;
    }
    proof {
        lemma_first_index(tail, c);
        if tail.contains(c) {
            let k = choose|k: int| 0 <= k < tail.len() && tail[k] == c;
            assert(s@[k + from] == c);
        }
    }
    None
}

/// The characters of `s` from `from` to `to` as a new string.
pub fn substring(s: &str, from: usize, to: usize) -> (r: String)
    requires
        from <= to <= s@.len(),
    ensures
        r@ == s@.subrange(from as int, to as int),
{
    String::from_str(s.substring_char(from, to))
}

/// Whether `s` begins with `prefix`.
pub fn starts_with(s: &str, prefix: &str) -> (r: bool)
    ensures
        r == (prefix@.len() <= s@.len() && s@.subrange(0, prefix@.len() as int) == prefix@),
{
    let n = s.unicode_len();
    let m = prefix.unicode_len();
    if m > n {
        return false;
    }
    let mut i: usize = 0;
    while i < m
        invariant
            i <= m <= n,
            n == s@.len(),
            m == prefix@.len(),
            forall|j: int| 0 <= j < i ==> s@[j] == prefix@[j],
        decreases m - i,
    {
        if s.get_char(i) != prefix.get_char(i) {
            proof {
                assert(s@.subrange(0, m as int)[i as int] != prefix@[i as int]);
            }
            return false;
        }
        i = i + 1;
    }
    assert(s@.subrange(0, m as int) =~= prefix@);
    true
}

/// The text of the error that `std::str::from_utf8` gives for bytes that are
/// not UTF-8.
pub uninterp spec fn utf8_error(bytes: Seq<u8>) -> Seq<char>;

/// Decodes UTF-8 bytes into a string, as `std::str::from_utf8` does.
///
/// Trusted: calls `std::str::from_utf8`. The contract claims that it accepts
/// exactly the byte sequences that vstd's `valid_utf8` accepts and that the
/// text it returns is their decoding; the text of its error is named
/// (`utf8_error`), being std's `Utf8Error` message, which depends on the
/// bytes alone (where the valid prefix ends and how long the bad sequence
/// is).
#[verifier::external_body]
pub(crate) fn utf8_to_string(bytes: &[u8]) -> (r: Result<String, String>)
    ensures
        r is Ok <==> valid_utf8(bytes@),
        r matches Ok(s) ==> s@ == decode_utf8(bytes@),
        r matches Err(e) ==> e@ == utf8_error(bytes@),
{
    match std::str::from_utf8(bytes) {
        Ok(s) => Ok(s.to_string()),
        Err(e) => Err(e.to_string()),
    }
}

/// The decimal digits of `n`, most significant first, with no leading zero.
pub open spec fn decimal(n: nat) -> Seq<char>
    decreases n,
{
    if n < 10 {
        seq![digit_char(n)]
    } else {
        decimal(n / 10).push(digit_char(n % 10))
    }
}

/// The character of a decimal digit.
pub open spec fn digit_char(d: nat) -> char {
    ((d + 48) as u32) as char
}

/// Decimal digits are ASCII and are not zero bytes.
pub proof fn lemma_decimal_ascii(n: nat)
    ensures
        all_ascii(decimal(n)),
        !decimal(n).contains(' '),
        !decimal(n).contains('\0'),
        decimal(n).len() >= 1,
        forall|i: int| 0 <= i < decimal(n).len() ==> '0' <= #[trigger] decimal(n)[i] <= '9',
    decreases n,
{
    if n >= 10 {
        lemma_decimal_ascii(n / 10);
    }
    let d = decimal(n);
    assert forall|i: int| 0 <= i < d.len() implies '0' <= #[trigger] d[i] <= '9' by {
        if n >= 10 && i < d.len() - 1 {
            assert(d[i] == decimal(n / 10)[i]);
        }
    }
    if d.contains(' ') {
        let k = choose|k: int| 0 <= k < d.len() && d[k] == ' ';
        assert('0' <= d[k]);
    }
    if d.contains('\0') {
        let k = choose|k: int| 0 <= k < d.len() && d[k] == '\0';
        assert('0' <= d[k]);
    }
}

/// Appends the decimal digits of `n` to `out`, as ASCII bytes.
pub fn push_decimal(out: &mut Vec<u8>, n: usize)
    ensures
        final(out)@ == old(out)@ + utf8(decimal(n as nat)),
    decreases n,
{
    proof {
        lemma_decimal_ascii(n as nat);
        lemma_utf8_ascii(decimal(n as nat));
    }
    if n >= 10 {
        push_decimal(out, n / 10);
        proof {
            lemma_decimal_ascii((n / 10) as nat);
            lemma_utf8_ascii(decimal((n / 10) as nat));
        }
    }
    let d: u8 = (n % 10) as u8 + 48;
    out.push(d);
    proof {
        let dd = decimal(n as nat);
        assert(dd[dd.len() - 1] == digit_char((n % 10) as nat));
        assert(final(out)@ =~= old(out)@ + utf8(decimal(n as nat)));
    }
}


/// A line without the `\r` that ends it, if one does.
pub open spec fn strip_cr(l: Seq<char>) -> Seq<char> {
    if l.len() > 0 && l.last() == '\r' {
        l.drop_last()
    } else {
        l
    }
}

/// The lines of a text, as `str::lines` gives them: split after each `\n`,
/// the `\n` and then a `\r` before it taken off; a last line without `\n`
/// is kept whole, and an empty text has no lines.
pub open spec fn lines(s: Seq<char>) -> Seq<Seq<char>>
    decreases s.len(),
{
    if s.len() == 0 {
        Seq::empty()
    } else {
        match first_index(s, '\n') {
            None => seq![s],
            Some(i) => {
                proof {
                    lemma_first_index(s, '\n');
                }
                seq![strip_cr(s.subrange(0, i))] + lines(s.subrange(i + 1, s.len() as int))
            },
        }
    }
}

/// The line of `s` that starts at character `from`, and where the next one
/// starts.
pub fn next_line(s: &str, from: usize) -> (r: (String, usize))
    requires
        from < s@.len(),
    ensures
        ({
            let t = s@.subrange(from as int, s@.len() as int);
            &&& lines(t).len() > 0
            &&& r.0@ == lines(t)[0]
            &&& from < r.1 <= s@.len()
            &&& lines(t).drop_first() == lines(s@.subrange(r.1 as int, s@.len() as int))
        }),
{
    let n = s.unicode_len();
    let ghost t = s@.subrange(from as int, s@.len() as int);
    proof {
        lemma_first_index(t, '\n');
    }
    match find_char(s, '\n', from) {
        None => {
            proof {
                assert(lines(t) == seq![t]);
                assert(s@.subrange(n as int, n as int) =~= Seq::<char>::empty());
                assert(lines(t).drop_first() =~= Seq::<Seq<char>>::empty());
            }
            (substring(s, from, n), n)
        },
        Some(e) => {
            let ghost i = e - from;
            proof {
                assert(t.subrange(0, i) =~= s@.subrange(from as int, e as int));
                assert(t.subrange(i + 1, t.len() as int) =~= s@.subrange(e + 1, n as int));
                assert(lines(t) == seq![strip_cr(t.subrange(0, i))] + lines(
                    t.subrange(i + 1, t.len() as int),
                ));
                assert(lines(t).drop_first() =~= lines(t.subrange(i + 1, t.len() as int)));
            }
            let mut end = e;
            if end > from && s.get_char(end - 1) == '\r' {
                end = end - 1;
                proof {
                    assert(s@.subrange(from as int, e as int).drop_last() =~= s@.subrange(
                        from as int,
                        end as int,
                    ));
                }
            }
            (substring(s, from, end), e + 1)
        },
    }
}


/// The characters that `char::is_whitespace` accepts: those with the
/// Unicode White_Space property.
pub open spec fn is_white(c: char) -> bool {
    let u = c as u32;
    (0x09 <= u <= 0x0D) || u == 0x20 || u == 0x85 || u == 0xA0 || u == 0x1680 || (0x2000 <= u
        <= 0x200A) || u == 0x2028 || u == 0x2029 || u == 0x202F || u == 0x205F || u == 0x3000
}

/// Whether a character is white space, as `char::is_whitespace` says.
pub fn is_white_char(c: char) -> (r: bool)
    ensures
        r == is_white(c),
{
    let u = c as u32;
    (0x09 <= u && u <= 0x0D) || u == 0x20 || u == 0x85 || u == 0xA0 || u == 0x1680 || (0x2000 <= u
        && u <= 0x200A) || u == 0x2028 || u == 0x2029 || u == 0x202F || u == 0x205F || u == 0x3000
}

/// The number of white-space characters at the start.
pub open spec fn lead_white(s: Seq<char>) -> nat
    decreases s.len(),
{
    if s.len() > 0 && is_white(s[0]) {
        1 + lead_white(s.drop_first())
    } else {
        0
    }
}

/// The number of white-space characters at the end.
pub open spec fn trail_white(s: Seq<char>) -> nat
    decreases s.len(),
{
    if s.len() > 0 && is_white(s.last()) {
        1 + trail_white(s.drop_last())
    } else {
        0
    }
}

/// The text without white space at either end, as `str::trim` gives it.
pub open spec fn trim(s: Seq<char>) -> Seq<char> {
    let a = lead_white(s);
    let t = s.subrange(a as int, s.len() as int);
    t.subrange(0, t.len() - trail_white(t))
}

proof fn lemma_lead_white(s: Seq<char>, i: int)
    requires
        0 <= i <= s.len(),
        forall|j: int| 0 <= j < i ==> is_white(#[trigger] s[j]),
        i == s.len() || !is_white(s[i]),
    ensures
        lead_white(s) == i,
    decreases s.len(),
{
    if i > 0 {
        assert forall|j: int| 0 <= j < i - 1 implies is_white(#[trigger] s.drop_first()[j]) by {
            assert(s.drop_first()[j] == s[j + 1]);
        }
        if i - 1 < s.drop_first().len() {
            assert(s.drop_first()[i - 1] == s[i]);
        }
        lemma_lead_white(s.drop_first(), i - 1);
    }
}

proof fn lemma_trail_white(s: Seq<char>, k: int)
    requires
        0 <= k <= s.len(),
        forall|j: int| k <= j < s.len() ==> is_white(#[trigger] s[j]),
        k == 0 || !is_white(s[k - 1]),
    ensures
        trail_white(s) == s.len() - k,
    decreases s.len(),
{
    if k < s.len() {
        assert forall|j: int| k <= j < s.drop_last().len() implies is_white(
            #[trigger] s.drop_last()[j],
        ) by {
            assert(s.drop_last()[j] == s[j]);
        }
        if k > 0 {
            assert(s.drop_last()[k - 1] == s[k - 1]);
        }
        lemma_trail_white(s.drop_last(), k);
    }
}

/// The text without white space at either end.
pub fn trim_text(s: &str) -> (r: String)
    ensures
        r@ == trim(s@),
{
    let n = s.unicode_len();
    let mut a: usize = 0;
    while a < n && is_white_char(s.get_char(a))
        invariant
            a <= n,
            n == s@.len(),
            forall|j: int| 0 <= j < a ==> is_white(#[trigger] s@[j]),
        decreases n - a,
    {
        a = a + 1;
    }
    proof {
        lemma_lead_white(s@, a as int);
    }
    let mut b: usize = n;
    while b > a && is_white_char(s.get_char(b - 1))
        invariant
            a <= b <= n,
            n == s@.len(),
            forall|j: int| b <= j < n ==> is_white(#[trigger] s@[j]),
        decreases b,
    {
        b = b - 1;
    }
    proof {
        let t = s@.subrange(a as int, n as int);
        assert forall|j: int| b - a <= j < t.len() implies is_white(#[trigger] t[j]) by {
            assert(t[j] == s@[j + a]);
        }
        if b > a {
            assert(t[b - a - 1] == s@[b - 1]);
        }
        lemma_trail_white(t, b - a);
        assert(t.subrange(0, b - a) =~= s@.subrange(a as int, b as int));
    }
    substring(s, a, b)
}

/// The pieces of a text between occurrences of `c`, as `str::split(c)`
/// gives them: one more than the number of occurrences, empty ones
/// included.
pub open spec fn split_on(s: Seq<char>, c: char) -> Seq<Seq<char>>
    decreases s.len(),
{
    match first_index(s, c) {
        None => seq![s],
        Some(i) => {
            proof {
                lemma_first_index(s, c);
            }
            seq![s.subrange(0, i)] + split_on(s.subrange(i + 1, s.len() as int), c)
        },
    }
}

/// A line without a newline, then a newline, starts the lines of a text.
pub proof fn lemma_lines_cons(x: Seq<char>, rest: Seq<char>)
    requires
        !x.contains('\n'),
    ensures
        lines(x + seq!['\n'] + rest) == seq![strip_cr(x)] + lines(rest),
{
    let s = x + seq!['\n'] + rest;
    lemma_first_index_after(x, seq!['\n'] + rest, '\n');
    assert(s =~= x + (seq!['\n'] + rest));
    assert(first_index(seq!['\n'] + rest, '\n') == Some(0int));
    assert(s.subrange(0, x.len() as int) =~= x);
    assert(s.subrange(x.len() as int + 1, s.len() as int) =~= rest);
}

/// Text that stands as one line: no newline, and no carriage return at the
/// end (which reading lines would take off).
pub open spec fn one_line(s: Seq<char>) -> bool {
    !s.contains('\n') && (s.len() == 0 || s.last() != '\r')
}

/// A prefix and a one-line text make one line when the prefix ends in a
/// character other than a line break.
pub proof fn lemma_prefixed_line(prefix: Seq<char>, s: Seq<char>)
    requires
        !prefix.contains('\n'),
        prefix.len() > 0,
        prefix.last() != '\r',
        one_line(s),
    ensures
        !(prefix + s).contains('\n'),
        strip_cr(prefix + s) == prefix + s,
{
    let x = prefix + s;
    if x.contains('\n') {
        let k = choose|k: int| 0 <= k < x.len() && x[k] == '\n';
        if k < prefix.len() {
            assert(prefix[k] == '\n');
        } else {
            assert(s[k - prefix.len()] == '\n');
        }
    }
    if s.len() == 0 {
        assert(x.last() == prefix.last());
    } else {
        assert(x.last() == s.last());
    }
}

/// One step of `split_on`.
pub proof fn lemma_split_step(s: Seq<char>, c: char)
    ensures
        split_on(s, c).len() >= 1,
        first_index(s, c) is None ==> split_on(s, c) == seq![s],
        first_index(s, c) matches Some(i) ==> ({
            let r = s.subrange(i + 1, s.len() as int);
            &&& 0 <= i < s.len()
            &&& split_on(s, c) == seq![s.subrange(0, i)] + split_on(r, c)
        }),
    decreases s.len(),
{
    lemma_first_index(s, c);
    match first_index(s, c) {
        Some(i) => {
            lemma_split_step(s.subrange(i + 1, s.len() as int), c);
        },
        None => {},
    }
}

} // verus!
