//! Numbers and messages as text.

use vstd::prelude::*;

verus! {

/// The character of a decimal digit.
pub open spec fn digit_char(d: nat) -> char {
    if d == 0 {
        '0'
    } else if d == 1 {
        '1'
    } else if d == 2 {
        '2'
    } else if d == 3 {
        '3'
    } else if d == 4 {
        '4'
    } else if d == 5 {
        '5'
    } else if d == 6 {
        '6'
    } else if d == 7 {
        '7'
    } else if d == 8 {
        '8'
    } else {
        '9'
    }
}

/// A number in decimal, without leading zeros.
pub open spec fn decimal_text(n: nat) -> Seq<char>
    decreases n,
{
    if n < 10 {
        seq![digit_char(n)]
    } else {
        decimal_text(n / 10).push(digit_char(n % 10))
    }
}

fn digit_str(d: u64) -> (r: &'static str)
    requires
        d < 10,
    ensures
        r@ == seq![digit_char(d as nat)],
{
    proof {
        reveal_strlit("0");
        reveal_strlit("1");
        reveal_strlit("2");
        reveal_strlit("3");
        reveal_strlit("4");
        reveal_strlit("5");
        reveal_strlit("6");
        reveal_strlit("7");
        reveal_strlit("8");
        reveal_strlit("9");
    }
    let r: &'static str = if d == 0 {
        "0"
    } else if d == 1 {
        "1"
    } else if d == 2 {
        "2"
    } else if d == 3 {
        "3"
    } else if d == 4 {
        "4"
    } else if d == 5 {
        "5"
    } else if d == 6 {
        "6"
    } else if d == 7 {
        "7"
    } else if d == 8 {
        "8"
    } else {
        "9"
    };
    assert(r@ =~= seq![digit_char(d as nat)]);
    r
}

/// Appends a number in decimal.
pub fn push_decimal(out: &mut String, n: u64)
    ensures
        final(out)@ == old(out)@ + decimal_text(n as nat),
    decreases n,
{
    if n >= 10 {
        push_decimal(out, n / 10);
    }
    out.append(digit_str(n % 10));
    proof {
        if n >= 10 {
            assert(out@ =~= old(out)@ + decimal_text(n as nat / 10).push(digit_char(n as nat % 10)));
        } else {
            assert(out@ =~= old(out)@ + decimal_text(n as nat));
        }
    }
}

/// Appends a number of up to 128 bits in decimal.
pub fn push_decimal_wide(out: &mut String, n: u128)
    ensures
        final(out)@ == old(out)@ + decimal_text(n as nat),
    decreases n,
{
    if n >= 10 {
        push_decimal_wide(out, n / 10);
    }
    out.append(digit_str((n % 10) as u64));
    proof {
        if n >= 10 {
            assert(out@ =~= old(out)@ + decimal_text(n as nat / 10).push(digit_char(n as nat % 10)));
        } else {
            assert(out@ =~= old(out)@ + decimal_text(n as nat));
        }
    }
}

/// The sum of the characters of two texts.
pub fn joined(a: &str, b: &str) -> (r: String)
    ensures
        r@ == a@ + b@,
{
    let mut out: String = a.to_owned();
    out.append(b);
    out
}

/// Text without the pairs of characters `a`, `b` that it begins with.
pub open spec fn stripped(s: Seq<char>, a: char, b: char) -> Seq<char>
    decreases s.len(),
{
    if s.len() >= 2 && s[0] == a && s[1] == b {
        stripped(s.skip(2), a, b)
    } else {
        s
    }
}

/// Strips the pairs of characters `a`, `b` that the text begins with.
pub fn strip_pairs(s: &str, a: char, b: char) -> (r: &str)
    ensures
        r@ == stripped(s@, a, b),
{
    let n: usize = s.unicode_len();
    let mut i: usize = 0;
    proof {
        assert(s@.skip(0) =~= s@);
    }
    while n - i >= 2 && s.get_char(i) == a && s.get_char(i + 1) == b
        invariant
            i <= n,
            n == s@.len(),
            stripped(s@, a, b) == stripped(s@.skip(i as int), a, b),
        decreases n - i,
    {
        proof {
            assert(s@.skip(i as int).skip(2) =~= s@.skip(i + 2));
        }
        i = i + 2;
    }
    proof {
        assert(s@.subrange(i as int, n as int) =~= s@.skip(i as int));
    }
    s.substring_char(i, n)
}

/// Text cut at a character into at most `n` pieces; the last keeps what follows.
pub open spec fn pieces(s: Seq<char>, c: char, n: nat) -> Seq<Seq<char>>
    decreases s.len(),
{
    if s.len() == 0 {
        seq![Seq::empty()]
    } else {
        let p = pieces(s.drop_last(), c, n);
        if s.last() == c && p.len() < n {
            p.push(Seq::empty())
        } else {
            p.update(p.len() - 1, p.last().push(s.last()))
        }
    }
}

/// Texts, each by its view.
pub open spec fn texts_view(s: Seq<&str>) -> Seq<Seq<char>> {
    Seq::new(s.len(), |i: int| s[i]@)
}

/// There is at least one piece, and there are no more than asked for, nor more than one for each
/// character and one.
pub proof fn lemma_pieces_len(s: Seq<char>, c: char, n: nat)
    ensures
        1 <= pieces(s, c, n).len() <= s.len() + 1,
        n >= 1 ==> pieces(s, c, n).len() <= n,
    decreases s.len(),
{
    if s.len() > 0 {
        lemma_pieces_len(s.drop_last(), c, n);
    }
}

/// Cuts the text at a character into at most `n` pieces.
pub fn split_max(s: &str, c: char, n: usize) -> (r: Vec<&str>)
    ensures
        texts_view(r@) == pieces(s@, c, n as nat),
{
    let len: usize = s.unicode_len();
    let mut out: Vec<&str> = Vec::new();
    let mut start: usize = 0;
    let mut i: usize = 0;
    proof {
        assert(s@.take(0) =~= Seq::empty());
        assert(texts_view(out@).push(s@.subrange(0, 0)) =~= pieces(s@.take(0), c, n as nat));
    }
    while i < len
        invariant
            start <= i <= len,
            len == s@.len(),
            texts_view(out@).push(s@.subrange(start as int, i as int)) == pieces(
                s@.take(i as int),
                c,
                n as nat,
            ),
        decreases len - i,
    {
        let ghost before = texts_view(out@);
        let ghost piece = s@.subrange(start as int, i as int);
        let ghost p = pieces(s@.take(i as int), c, n as nat);
        proof {
            assert(s@.take(i + 1).drop_last() =~= s@.take(i as int));
            assert(s@.take(i + 1).last() == s@[i as int]);
            assert(p.len() == out@.len() + 1);
        }
        let here: bool = s.get_char(i) == c;
        if here && n >= 2 && out.len() <= n - 2 {
            out.push(s.substring_char(start, i));
            start = i + 1;
            proof {
                assert(texts_view(out@) =~= before.push(piece));
                assert(s@.subrange(start as int, i + 1) =~= Seq::empty());
            }
        } else {
            proof {
                assert(s@.subrange(start as int, i + 1) =~= piece.push(s@[i as int]));
                assert(p.update(p.len() - 1, p.last().push(s@[i as int])) =~= before.push(
                    s@.subrange(start as int, i + 1),
                ));
            }
        }
        i = i + 1;
    }
    let ghost before = texts_view(out@);
    out.push(s.substring_char(start, len));
    proof {
        assert(s@.take(len as int) =~= s@);
        assert(texts_view(out@) =~= before.push(s@.subrange(start as int, len as int)));
    }
    out
}

/// The character counts as white space: it has Unicode's `White_Space` property.
pub open spec fn white_space(c: char) -> bool {
    let n = c as u32;
    ||| 0x09 <= n <= 0x0D
    ||| n == 0x20
    ||| n == 0x85
    ||| n == 0xA0
    ||| n == 0x1680
    ||| 0x2000 <= n <= 0x200A
    ||| n == 0x2028
    ||| n == 0x2029
    ||| n == 0x202F
    ||| n == 0x205F
    ||| n == 0x3000
}

/// Whether the character counts as white space.
fn is_white_space(c: char) -> (r: bool)
    ensures
        r == white_space(c),
{
    let n: u32 = c as u32;
    (0x09 <= n && n <= 0x0D) || n == 0x20 || n == 0x85 || n == 0xA0 || n == 0x1680 || (0x2000 <= n
        && n <= 0x200A) || n == 0x2028 || n == 0x2029 || n == 0x202F || n == 0x205F || n == 0x3000
}

/// Text without the white space that it begins with.
pub open spec fn trimmed_start(s: Seq<char>) -> Seq<char>
    decreases s.len(),
{
    if s.len() > 0 && white_space(s[0]) {
        trimmed_start(s.skip(1))
    } else {
        s
    }
}

/// Text without the white space that it ends with.
pub open spec fn trimmed_end(s: Seq<char>) -> Seq<char>
    decreases s.len(),
{
    if s.len() > 0 && white_space(s.last()) {
        trimmed_end(s.drop_last())
    } else {
        s
    }
}

/// Text without the white space around it.
pub open spec fn trimmed(s: Seq<char>) -> Seq<char> {
    trimmed_end(trimmed_start(s))
}

/// Strips the white space around the text.
pub fn trim(s: &str) -> (r: &str)
    ensures
        r@ == trimmed(s@),
{
    let n: usize = s.unicode_len();
    let mut i: usize = 0;
    proof {
        assert(s@.skip(0) =~= s@);
    }
    while i < n && is_white_space(s.get_char(i))
        invariant
            i <= n,
            n == s@.len(),
            trimmed_start(s@) == trimmed_start(s@.skip(i as int)),
        decreases n - i,
    {
        proof {
            assert(s@.skip(i as int).skip(1) =~= s@.skip(i + 1));
        }
        i = i + 1;
    }
    let mut j: usize = n;
    let ghost t = s@.skip(i as int);
    proof {
        assert(t == trimmed_start(s@));
        assert(s@.subrange(i as int, n as int) =~= t);
    }
    while i < j && is_white_space(s.get_char(j - 1))
        invariant
            i <= j <= n,
            n == s@.len(),
            trimmed_end(t) == trimmed_end(s@.subrange(i as int, j as int)),
        decreases j - i,
    {
        proof {
            assert(s@.subrange(i as int, j as int).drop_last() =~= s@.subrange(i as int, j - 1));
            assert(s@.subrange(i as int, j as int).last() == s@[j - 1]);
        }
        j = j - 1;
    }
    s.substring_char(i, j)
}

/// What is wrong with text that is not a number.
#[derive(Clone, Copy, Debug, PartialEq, Eq, Structural)]
pub enum NumberFault {
    Empty,
    InvalidDigit,
    TooLarge,
}

/// A fault in words.
pub open spec fn number_fault_text(f: NumberFault) -> Seq<char> {
    match f {
        NumberFault::Empty => "cannot parse integer from empty string"@,
        NumberFault::InvalidDigit => "invalid digit found in string"@,
        NumberFault::TooLarge => "number too large to fit in target type"@,
    }
}

impl NumberFault {
    /// The fault in words.
    pub fn message(&self) -> (r: String)
        ensures
            r@ == number_fault_text(*self),
    {
        match self {
            NumberFault::Empty => "cannot parse integer from empty string".to_owned(),
            NumberFault::InvalidDigit => "invalid digit found in string".to_owned(),
            NumberFault::TooLarge => "number too large to fit in target type".to_owned(),
        }
    }
}

/// A decimal digit.
pub open spec fn is_digit(c: char) -> bool {
    '0' <= c <= '9'
}

/// What the first `n` digits count, or what the first character that spoils them is wrong with.
pub open spec fn digits_value(s: Seq<char>, n: nat, max: nat) -> Result<nat, NumberFault>
    decreases n,
{
    if n == 0 {
        Ok(0)
    } else {
        match digits_value(s, (n - 1) as nat, max) {
            Ok(v) => if !is_digit(s[n - 1]) {
                Err(NumberFault::InvalidDigit)
            } else if v * 10 + (s[n - 1] as u32 - 48) > max {
                Err(NumberFault::TooLarge)
            } else {
                Ok((v * 10 + (s[n - 1] as u32 - 48)) as nat)
            },
            Err(f) => Err(f),
        }
    }
}

/// The number that decimal digits, after an optional plus sign, stand for, if it is at most `max`.
pub open spec fn number_of(s: Seq<char>, max: nat) -> Result<nat, NumberFault> {
    if s.len() == 0 {
        Err(NumberFault::Empty)
    } else if s[0] == '+' {
        if s.len() == 1 {
            Err(NumberFault::InvalidDigit)
        } else {
            digits_value(s.skip(1), (s.len() - 1) as nat, max)
        }
    } else {
        digits_value(s, s.len(), max)
    }
}

/// The result agrees with what the text says.
pub open spec fn number_is(r: Result<u128, NumberFault>, said: Result<nat, NumberFault>) -> bool {
    match (r, said) {
        (Ok(v), Ok(w)) => v == w,
        (Err(f), Err(g)) => f == g,
        _ => false,
    }
}

proof fn lemma_digits_stop(s: Seq<char>, k: nat, n: nat, max: nat)
    requires
        k <= n,
        digits_value(s, k, max) is Err,
    ensures
        digits_value(s, n, max) == digits_value(s, k, max),
    decreases n,
{
    if k < n {
        lemma_digits_stop(s, k, (n - 1) as nat, max);
    }
}

/// The number that text stands for, if it is at most `max`.
pub fn parse_number(s: &str, max: u128) -> (r: Result<u128, NumberFault>)
    ensures
        number_is(r, number_of(s@, max as nat)),
{
    let len: usize = s.unicode_len();
    if len == 0 {
        return Err(NumberFault::Empty);
    }
    let mut start: usize = 0;
    if s.get_char(0) == '+' {
        if len == 1 {
            return Err(NumberFault::InvalidDigit);
        }
        start = 1;
    }
    let ghost d = s@.skip(start as int);
    proof {
        assert(s@.skip(0) =~= s@);
        assert(number_of(s@, max as nat) == digits_value(d, d.len(), max as nat));
    }
    let mut value: u128 = 0;
    let mut i: usize = start;
    while i < len
        invariant
            start <= i <= len,
            len == s@.len(),
            d == s@.skip(start as int),
            value <= max,
            digits_value(d, (i - start) as nat, max as nat) == Ok::<nat, NumberFault>(
                value as nat,
            ),
            number_of(s@, max as nat) == digits_value(d, d.len(), max as nat),
        decreases len - i,
    {
        let c: char = s.get_char(i);
        let ghost k = (i - start + 1) as nat;
        proof {
            assert(d[k - 1] == c);
        }
        if !('0' <= c && c <= '9') {
            proof {
                lemma_digits_stop(d, k, d.len(), max as nat);
            }
            return Err(NumberFault::InvalidDigit);
        }
        let digit: u128 = (c as u32 - 48) as u128;
        if value > max / 10 || digit > max - value * 10 {
            proof {
                lemma_digits_stop(d, k, d.len(), max as nat);
            }
            return Err(NumberFault::TooLarge);
        }
        value = value * 10 + digit;
        i = i + 1;
    }
    Ok(value)
}

/// A number's decimal text reads back as the number, where it is not too large.
pub proof fn law_numbers_read_back(n: nat, max: nat)
    requires
        n <= max,
    ensures
        number_of(decimal_text(n), max) == Ok::<nat, NumberFault>(n),
{
    lemma_decimal_reads(n, max);
}

proof fn lemma_decimal_reads(n: nat, max: nat)
    requires
        n <= max,
    ensures
        decimal_text(n).len() > 0,
        decimal_text(n)[0] != '+',
        digits_value(decimal_text(n), decimal_text(n).len(), max) == Ok::<nat, NumberFault>(n),
    decreases n,
{
    let t = decimal_text(n);
    if n < 10 {
        assert(t =~= seq![digit_char(n)]);
        assert(digits_value(t, 0, max) == Ok::<nat, NumberFault>(0));
    } else {
        let h = decimal_text(n / 10);
        lemma_decimal_reads(n / 10, max);
        lemma_digits_prefix(h, t, h.len(), max);
        assert(t[h.len() as int] == digit_char(n % 10));
    }
}

proof fn lemma_digits_prefix(a: Seq<char>, b: Seq<char>, n: nat, max: nat)
    requires
        n <= a.len(),
        n <= b.len(),
        forall|i: int| 0 <= i < n ==> a[i] == b[i],
    ensures
        digits_value(a, n, max) == digits_value(b, n, max),
    decreases n,
{
    if n > 0 {
        lemma_digits_prefix(a, b, (n - 1) as nat, max);
    }
}

/// Texts with a character between them.
pub open spec fn with_between(p: Seq<Seq<char>>, c: char) -> Seq<char>
    decreases p.len(),
{
    if p.len() == 0 {
        Seq::empty()
    } else if p.len() == 1 {
        p[0]
    } else {
        with_between(p.drop_last(), c).push(c) + p.last()
    }
}

proof fn lemma_between_extended(p: Seq<Seq<char>>, c: char, x: char)
    requires
        p.len() > 0,
    ensures
        with_between(p.update(p.len() - 1, p.last().push(x)), c) == with_between(p, c).push(x),
{
    let q = p.update(p.len() - 1, p.last().push(x));
    if p.len() == 1 {
        assert(q[0] == p[0].push(x));
    } else {
        assert(q.drop_last() =~= p.drop_last());
        assert(with_between(q, c) =~= with_between(p, c).push(x));
    }
}

/// Cutting a text loses nothing: with the character put back between the pieces it is the text again.
/// No piece but the last holds the character, and the last does only where there were too many.
pub proof fn law_pieces_make_up_the_text(s: Seq<char>, c: char, n: nat, i: int)
    requires
        0 <= i < pieces(s, c, n).len(),
    ensures
        with_between(pieces(s, c, n), c) == s,
        i < pieces(s, c, n).len() - 1 || pieces(s, c, n).len() < n ==> !pieces(s, c, n)[i].contains(
            c,
        ),
    decreases s.len(),
{
    if s.len() == 0 {
        assert(with_between(seq![Seq::<char>::empty()], c) =~= s);
    } else {
        let t = s.drop_last();
        let p = pieces(t, c, n);
        let q = pieces(s, c, n);
        lemma_pieces_len(t, c, n);
        law_pieces_make_up_the_text(
            t,
            c,
            n,
            if i < p.len() {
                i
            } else {
                0
            },
        );
        assert(t.push(s.last()) =~= s);
        if s.last() == c && p.len() < n {
            assert(q.drop_last() =~= p);
            assert(with_between(q, c) =~= s);
            if i == p.len() {
                assert(q[i] =~= Seq::empty());
            }
        } else {
            lemma_between_extended(p, c, s.last());
            if i == p.len() - 1 && q.len() < n {
                assert(s.last() != c);
                assert(!p[i].contains(c));
                assert forall|k: int| 0 <= k < q[i].len() implies q[i][k] != c by {
                    if k < p[i].len() {
                        assert(p[i].contains(p[i][k]));
                    }
                }
            }
        }
    }
}

/// Trimming takes white space off both ends and nothing else: what is left neither begins nor ends
/// with any, and with what was taken off it is the text again.
pub proof fn law_trimming_takes_the_ends(s: Seq<char>)
    ensures
        ({
            let t = trimmed(s);
            &&& t.len() > 0 ==> !white_space(t[0]) && !white_space(t.last())
            &&& exists|a: int, b: int|
                #![trigger s.subrange(a, b)]
                0 <= a <= b <= s.len() && t == s.subrange(a, b) && (forall|i: int|
                    0 <= i < a ==> white_space(#[trigger] s[i])) && (forall|i: int|
                    b <= i < s.len() ==> white_space(#[trigger] s[i]))
        }),
{
    let a = lemma_trimmed_start(s);
    let u = trimmed_start(s);
    let k = lemma_trimmed_end(u);
    let t = trimmed(s);
    assert(u == s.skip(a));
    assert(t == u.take(k));
    assert(t =~= s.subrange(a, a + k));
    assert forall|i: int| a + k <= i < s.len() implies white_space(#[trigger] s[i]) by {
        assert(u[i - a] == s[i]);
    }
    if t.len() > 0 {
        assert(t[0] == u[0]);
    }
}

proof fn lemma_trimmed_start(s: Seq<char>) -> (a: int)
    ensures
        0 <= a <= s.len(),
        trimmed_start(s) == s.skip(a),
        forall|i: int| 0 <= i < a ==> white_space(#[trigger] s[i]),
        a < s.len() ==> !white_space(s[a]),
    decreases s.len(),
{
    if s.len() > 0 && white_space(s[0]) {
        let r = s.skip(1);
        let k = lemma_trimmed_start(r);
        assert(r.skip(k) =~= s.skip(k + 1));
        assert forall|i: int| 0 <= i < k + 1 implies white_space(#[trigger] s[i]) by {
            if i > 0 {
                assert(r[i - 1] == s[i]);
            }
        }
        k + 1
    } else {
        assert(s.skip(0) =~= s);
        0
    }
}

proof fn lemma_trimmed_end(s: Seq<char>) -> (k: int)
    ensures
        0 <= k <= s.len(),
        trimmed_end(s) == s.take(k),
        forall|i: int| k <= i < s.len() ==> white_space(#[trigger] s[i]),
        k > 0 ==> !white_space(s[k - 1]),
    decreases s.len(),
{
    if s.len() > 0 && white_space(s.last()) {
        let r = s.drop_last();
        let k = lemma_trimmed_end(r);
        assert(r.take(k) =~= s.take(k));
        assert forall|i: int| k <= i < s.len() implies white_space(#[trigger] s[i]) by {
            if i < r.len() {
                assert(r[i] == s[i]);
            }
        }
        k
    } else {
        assert(s.take(s.len() as int) =~= s);
        s.len() as int
    }
}

/// Prefixes come off whole, and all of them: what is left does not begin with one.
pub proof fn law_prefixes_come_off(s: Seq<char>, a: char, b: char)
    ensures
        stripped(seq![a, b] + s, a, b) == stripped(s, a, b),
        s.len() < 2 || s[0] != a || s[1] != b ==> stripped(s, a, b) == s,
        ({
            let t = stripped(s, a, b);
            t.len() < 2 || t[0] != a || t[1] != b
        }),
    decreases s.len(),
{
    let p = seq![a, b] + s;
    assert(p.skip(2) =~= s);
    if s.len() >= 2 && s[0] == a && s[1] == b {
        law_prefixes_come_off(s.skip(2), a, b);
    }
}

/// A number over the limit is refused as too large, however long its text is. A plus sign in front makes
/// no difference to what a number reads as.
pub proof fn law_numbers_over_the_limit_are_refused(n: nat, max: nat)
    ensures
        n > max ==> number_of(decimal_text(n), max) == Err::<nat, NumberFault>(
            NumberFault::TooLarge,
        ),
        number_of(seq!['+'] + decimal_text(n), max) == number_of(decimal_text(n), max),
{
    let t = decimal_text(n);
    let p = seq!['+'] + t;
    lemma_decimal_reads(n, n);
    assert(p.skip(1) =~= t);
    if n > max {
        lemma_decimal_too_large(n, max);
    }
}

proof fn lemma_decimal_too_large(n: nat, max: nat)
    requires
        n > max,
    ensures
        digits_value(decimal_text(n), decimal_text(n).len(), max) == Err::<nat, NumberFault>(
            NumberFault::TooLarge,
        ),
    decreases n,
{
    let t = decimal_text(n);
    if n < 10 {
        assert(t =~= seq![digit_char(n)]);
        assert(digits_value(t, 0, max) == Ok::<nat, NumberFault>(0));
    } else {
        let h = decimal_text(n / 10);
        lemma_digits_prefix(h, t, h.len(), max);
        assert(t[h.len() as int] == digit_char(n % 10));
        if n / 10 > max {
            lemma_decimal_too_large(n / 10, max);
        } else {
            lemma_decimal_reads(n / 10, max);
        }
    }
}

proof fn lemma_digits_only(s: Seq<char>, n: nat, max: nat)
    requires
        n <= s.len(),
        digits_value(s, n, max) is Ok,
    ensures
        digits_value(s, n, max)->Ok_0 <= max,
        forall|i: int| 0 <= i < n ==> '0' <= #[trigger] s[i] <= '9',
    decreases n,
{
    if n > 0 {
        lemma_digits_only(s, (n - 1) as nat, max);
    }
}

/// What reads as a number is one: at least one digit, nothing but digits behind the sign, if there is
/// one, and within the limit.
pub proof fn law_only_digits_are_numbers(s: Seq<char>, max: nat, i: int)
    requires
        number_of(s, max) is Ok,
        0 <= i < s.len(),
    ensures
        s.len() > 0,
        number_of(s, max)->Ok_0 <= max,
        '0' <= s[i] <= '9' || i == 0 && s[0] == '+' && s.len() > 1,
{
    if s[0] == '+' {
        let t = s.skip(1);
        lemma_digits_only(t, t.len(), max);
        if i > 0 {
            assert(t[i - 1] == s[i]);
        }
    } else {
        lemma_digits_only(s, s.len(), max);
    }
}

} // verus!
