//! Rendering numbers as text and reading them back.

use vstd::prelude::*;
use vstd::string::*;

verus! {

/// The digit `d` of a numeral, in lower or upper case above nine.
pub open spec fn digit_char(d: int, upper: bool) -> char {
    if d == 0 { '0' }
    else if d == 1 { '1' }
    else if d == 2 { '2' }
    else if d == 3 { '3' }
    else if d == 4 { '4' }
    else if d == 5 { '5' }
    else if d == 6 { '6' }
    else if d == 7 { '7' }
    else if d == 8 { '8' }
    else if d == 9 { '9' }
    else if d == 10 { if upper { 'A' } else { 'a' } }
    else if d == 11 { if upper { 'B' } else { 'b' } }
    else if d == 12 { if upper { 'C' } else { 'c' } }
    else if d == 13 { if upper { 'D' } else { 'd' } }
    else if d == 14 { if upper { 'E' } else { 'e' } }
    else { if upper { 'F' } else { 'f' } }
}

/// The value of a digit in `base` (at most sixteen), if `c` is one.
pub open spec fn digit_value(c: char, base: nat) -> Option<nat> {
    let d: int = if '0' <= c <= '9' {
        c as int - '0' as int
    } else if 'a' <= c <= 'f' {
        c as int - 'a' as int + 10
    } else if 'A' <= c <= 'F' {
        c as int - 'A' as int + 10
    } else {
        16
    };
    if d < base && d < 16 { Some(d as nat) } else { None }
}

/// The numeral of `n` in `base`, without leading zeros.
pub open spec fn numeral(n: nat, base: nat, upper: bool) -> Seq<char>
    decreases n,
{
    if base < 2 || n < base {
        seq![digit_char(n as int, upper)]
    } else {
        proof {
            assert(n / base < n) by (nonlinear_arith) requires n >= base, base >= 2;
        }
        numeral(n / base, base, upper).push(digit_char((n % base) as int, upper))
    }
}

/// The decimal numeral of `n`.
pub open spec fn decimal(n: nat) -> Seq<char> {
    numeral(n, 10, false)
}

/// `s` with zeros put before it until it is `width` long.
pub open spec fn zero_padded(s: Seq<char>, width: nat) -> Seq<char> {
    if s.len() >= width {
        s
    } else {
        Seq::new((width - s.len()) as nat, |i: int| '0') + s
    }
}

/// The number that a run of digits denotes; `None` where a character is no digit.
pub open spec fn digits_value(s: Seq<char>, base: nat) -> Option<nat>
    decreases s.len(),
{
    if s.len() == 0 {
        Some(0)
    } else {
        match (digits_value(s.drop_last(), base), digit_value(s.last(), base)) {
            (Some(v), Some(d)) => Some(v * base + d),
            _ => None,
        }
    }
}

/// What reading `s` as an unsigned number of at most `max` yields: an optional
/// plus sign and then at least one digit.
pub open spec fn parsed_number(s: Seq<char>, base: nat, max: nat) -> Option<nat> {
    let body = if s.len() > 0 && s[0] == '+' { s.skip(1) } else { s };
    if body.len() == 0 {
        None
    } else {
        match digits_value(body, base) {
            Some(v) => if v <= max { Some(v) } else { None },
            None => None,
        }
    }
}

fn digit_str(d: u64, upper: bool) -> (r: &'static str)
    requires
        d < 16,
    ensures
        r@ == seq![digit_char(d as int, upper)],
{
    proof {
        reveal_strlit("0"); reveal_strlit("1"); reveal_strlit("2"); reveal_strlit("3");
        reveal_strlit("4"); reveal_strlit("5"); reveal_strlit("6"); reveal_strlit("7");
        reveal_strlit("8"); reveal_strlit("9");
        reveal_strlit("a"); reveal_strlit("b"); reveal_strlit("c");
        reveal_strlit("d"); reveal_strlit("e"); reveal_strlit("f");
        reveal_strlit("A"); reveal_strlit("B"); reveal_strlit("C");
        reveal_strlit("D"); reveal_strlit("E"); reveal_strlit("F");
    }
    let r = if d == 0 { "0" }
        else if d == 1 { "1" }
        else if d == 2 { "2" }
        else if d == 3 { "3" }
        else if d == 4 { "4" }
        else if d == 5 { "5" }
        else if d == 6 { "6" }
        else if d == 7 { "7" }
        else if d == 8 { "8" }
        else if d == 9 { "9" }
        else if d == 10 { if upper { "A" } else { "a" } }
        else if d == 11 { if upper { "B" } else { "b" } }
        else if d == 12 { if upper { "C" } else { "c" } }
        else if d == 13 { if upper { "D" } else { "d" } }
        else if d == 14 { if upper { "E" } else { "e" } }
        else { if upper { "F" } else { "f" } };
    assert(r@ =~= seq![digit_char(d as int, upper)]);
    r
}

/// Appends the numeral of `n` in `base` to `out`.
pub fn push_numeral(out: &mut String, n: u64, base: u64, upper: bool)
    requires
        2 <= base <= 16,
    ensures
        final(out)@ == old(out)@ + numeral(n as nat, base as nat, upper),
    decreases n,
{
    if n >= base {
        assert(n / base < n) by (nonlinear_arith)
            requires n >= base, base >= 2;
        push_numeral(out, n / base, base, upper);
    }
    assert(n % base < base) by (nonlinear_arith)
        requires base >= 2;
    assert(n < base ==> n % base == n) by (nonlinear_arith)
        requires base >= 2;
    out.append(digit_str(n % base, upper));
    assert(out@ =~= old(out)@ + numeral(n as nat, base as nat, upper));
}

/// The decimal numeral of `n`.
pub fn decimal_string(n: u64) -> (r: String)
    ensures
        r@ == decimal(n as nat),
{
    let mut out = String::new();
    push_numeral(&mut out, n, 10, false);
    assert(out@ =~= decimal(n as nat));
    out
}

/// Appends the numeral of `n` in `base`, padded with zeros to `width`.
pub fn push_padded(out: &mut String, n: u64, base: u64, width: usize)
    requires
        2 <= base <= 16,
    ensures
        final(out)@ == old(out)@ + zero_padded(numeral(n as nat, base as nat, false), width as nat),
{
    let mut body = String::new();
    push_numeral(&mut body, n, base, false);
    assert(body@ =~= numeral(n as nat, base as nat, false));
    let len = body.as_str().unicode_len();
    let mut i: usize = len;
    proof { reveal_strlit("0"); }
    while i < width
        invariant
            body@.len() == len,
            len <= i,
            len < width ==> i <= width,
            len >= width ==> i == len,
            out@ == old(out)@ + Seq::new((i - len) as nat, |k: int| '0'),
            "0"@ =~= seq!['0'],
        decreases width - i,
    {
        out.append("0");
        i += 1;
        assert(out@ =~= old(out)@ + Seq::new((i - len) as nat, |k: int| '0'));
    }
    out.append(body.as_str());
    assert(out@ =~= old(out)@ + zero_padded(body@, width as nat));
}

fn digit_of(c: char, base: u64) -> (r: Option<u64>)
    requires
        base <= 16,
    ensures
        r matches Some(d) ==> digit_value(c, base as nat) == Some(d as nat) && d < base,
        r is None ==> digit_value(c, base as nat) is None,
{
    let d: u64 = if '0' <= c && c <= '9' {
        c as u64 - '0' as u64
    } else if 'a' <= c && c <= 'f' {
        c as u64 - 'a' as u64 + 10
    } else if 'A' <= c && c <= 'F' {
        c as u64 - 'A' as u64 + 10
    } else {
        16
    };
    if d < base { Some(d) } else { None }
}

proof fn lemma_digits_prefix_none(s: Seq<char>, k: int, base: nat)
    requires
        0 <= k <= s.len(),
        digits_value(s.take(k), base) is None,
    ensures
        digits_value(s, base) is None,
    decreases s.len() - k,
{
    if k == s.len() {
        assert(s.take(k) =~= s);
    } else {
        assert(s.take(k + 1).drop_last() =~= s.take(k));
        lemma_digits_prefix_none(s, k + 1, base);
    }
}

proof fn lemma_digits_prefix_le(s: Seq<char>, k: int, base: nat)
    requires
        0 <= k <= s.len(),
        base >= 1,
        digits_value(s, base) is Some,
    ensures
        digits_value(s.take(k), base) is Some,
        digits_value(s.take(k), base)->0 <= digits_value(s, base)->0,
    decreases s.len() - k,
{
    if k == s.len() {
        assert(s.take(k) =~= s);
    } else {
        lemma_digits_prefix_le(s, k + 1, base);
        assert(s.take(k + 1).drop_last() =~= s.take(k));
        let v = digits_value(s.take(k), base)->0;
        assert(v <= v * base) by (nonlinear_arith) requires base >= 1, v >= 0;
    }
}

/// Reads an unsigned number of at most `max` in `base`.
pub fn parse_number(s: &str, base: u64, max: u64) -> (r: Option<u64>)
    requires
        2 <= base <= 16,
        max <= u32::MAX || base == 10,
        max <= 0xffff_ffff_ffff_ffff,
    ensures
        r matches Some(v) ==> parsed_number(s@, base as nat, max as nat) == Some(v as nat),
        r is None ==> parsed_number(s@, base as nat, max as nat) is None,
{
    let len = s.unicode_len();
    let start: usize = if len > 0 && s.get_char(0) == '+' { 1 } else { 0 };
    if start == len {
        return None;
    }
    let ghost body = if start == 1 { s@.skip(1) } else { s@ };
    let mut value: u64 = 0;
    let mut i: usize = start;
    assert(body.take(0) =~= Seq::<char>::empty());
    while i < len
        invariant
            2 <= base <= 16,
            len == s@.len(),
            start <= i <= len,
            start == 1 || start == 0,
            start == 1 ==> s@[0] == '+',
            start == 0 && len > 0 ==> s@[0] != '+',
            start < len,
            body == (if start == 1 { s@.skip(1) } else { s@ }),
            digits_value(body.take(i - start), base as nat) == Some(value as nat),
            value <= max,
        decreases len - i,
    {
        let c = s.get_char(i);
        proof {
            assert(body[i - start] == c);
            assert(body.take(i + 1 - start).drop_last() =~= body.take(i - start));
            assert(body.take(i + 1 - start).last() == c);
        }
        match digit_of(c, base) {
            None => {
                proof { lemma_digits_prefix_none(body, i + 1 - start, base as nat); }
                return None;
            },
            Some(d) => {
                assert(value * base <= 0xffff_ffff_ffff_ffff * 16) by (nonlinear_arith)
                    requires value <= 0xffff_ffff_ffff_ffff, base <= 16;
                let next: u128 = value as u128 * base as u128 + d as u128;
                if next > max as u128 {
                    proof {
                        if digits_value(body, base as nat) is Some {
                            lemma_digits_prefix_le(body, i + 1 - start, base as nat);
                        }
                    }
                    return None;
                }
                value = next as u64;
            },
        }
        i += 1;
    }
    assert(body.take(len - start) =~= body);
    Some(value)
}

/// Reading back the numeral of `n` gives `n`.
pub proof fn numeral_reads_back(n: nat, base: nat, upper: bool)
    requires
        2 <= base <= 16,
    ensures
        digits_value(numeral(n, base, upper), base) == Some(n),
        numeral(n, base, upper).len() >= 1,
        numeral(n, base, upper)[0] != '+',
    decreases n,
{
    if n < base {
        let s = seq![digit_char(n as int, upper)];
        assert(s.drop_last() =~= Seq::<char>::empty());
        assert(0 * base == 0) by (nonlinear_arith);
        reveal_with_fuel(digits_value, 2);
    } else {
        assert(n / base < n) by (nonlinear_arith) requires n >= base, base >= 2;
        numeral_reads_back(n / base, base, upper);
        let p = numeral(n / base, base, upper);
        let s = p.push(digit_char((n % base) as int, upper));
        assert(s.drop_last() =~= p);
        assert((n / base) * base + n % base == n) by (nonlinear_arith) requires base >= 2;
        assert(n % base < base) by (nonlinear_arith) requires base >= 2;
    }
}

/// Reading the text of a number that fits gives the number.
pub proof fn parsing_inverts_numerals(n: nat, base: nat, upper: bool, max: nat)
    requires
        2 <= base <= 16,
        n <= max,
    ensures
        parsed_number(numeral(n, base, upper), base, max) == Some(n),
{
    numeral_reads_back(n, base, upper);
}

/// Distinct numbers have distinct numerals.
pub proof fn numeral_injective(a: nat, b: nat, base: nat, upper: bool)
    requires
        2 <= base <= 16,
        numeral(a, base, upper) == numeral(b, base, upper),
    ensures
        a == b,
{
    numeral_reads_back(a, base, upper);
    numeral_reads_back(b, base, upper);
}

/// Whether two texts are the same.
pub fn same_text(a: &str, b: &str) -> (r: bool)
    ensures
        r == (a@ == b@),
{
    let x = a.as_bytes();
    let y = b.as_bytes();
    proof {
        vstd::utf8::encode_utf8_decode_utf8(a@);
        vstd::utf8::encode_utf8_decode_utf8(b@);
    }
    if x.len() != y.len() {
        return false;
    }
    let mut i: usize = 0;
    while i < x.len()
        invariant
            x@ == a.spec_bytes(),
            y@ == b.spec_bytes(),
            x@.len() == y@.len(),
            i <= x@.len(),
            x@.take(i as int) == y@.take(i as int),
        decreases x@.len() - i,
    {
        if x[i] != y[i] {
            return false;
        }
        i += 1;
        assert(x@.take(i as int) =~= x@.take(i - 1).push(x@[i - 1]));
        assert(y@.take(i as int) =~= y@.take(i - 1).push(y@[i - 1]));
    }
    assert(x@ =~= x@.take(i as int));
    assert(y@ =~= y@.take(i as int));
    true
}

/// Whether text `a` sorts before text `b`: lexicographically, by code point.
pub open spec fn text_before(a: Seq<char>, b: Seq<char>) -> bool
    decreases a.len(),
{
    if b.len() == 0 {
        false
    } else if a.len() == 0 {
        true
    } else if a[0] == b[0] {
        text_before(a.skip(1), b.skip(1))
    } else {
        a[0] < b[0]
    }
}

/// Whether `a` sorts before `b`.
pub fn is_before(a: &str, b: &str) -> (r: bool)
    ensures
        r == text_before(a@, b@),
{
    let la = a.unicode_len();
    let lb = b.unicode_len();
    let mut i: usize = 0;
    assert(a@.skip(0) =~= a@ && b@.skip(0) =~= b@);
    while i < la && i < lb
        invariant
            la == a@.len(),
            lb == b@.len(),
            i <= la,
            i <= lb,
            text_before(a@, b@) == text_before(a@.skip(i as int), b@.skip(i as int)),
        decreases la - i,
    {
        let ca = a.get_char(i);
        let cb = b.get_char(i);
        if ca != cb {
            return ca < cb;
        }
        assert(a@.skip(i as int).skip(1) =~= a@.skip(i + 1));
        assert(b@.skip(i as int).skip(1) =~= b@.skip(i + 1));
        i += 1;
    }
    i < lb
}

/// The order of texts is irreflexive and total.
pub proof fn text_order_total(a: Seq<char>, b: Seq<char>)
    ensures
        !text_before(a, a),
        a != b ==> text_before(a, b) || text_before(b, a),
        !(text_before(a, b) && text_before(b, a)),
    decreases a.len(),
{
    if a.len() > 0 {
        if b.len() > 0 {
            text_order_total(a.skip(1), b.skip(1));
            if a[0] == b[0] && a.skip(1) == b.skip(1) {
                assert(a =~= seq![a[0]] + a.skip(1));
                assert(b =~= seq![b[0]] + b.skip(1));
            }
        } else {
            text_order_total(a.skip(1), b);
        }
    } else if b.len() == 0 {
        assert(a =~= b);
    }
}

/// The order of texts is transitive.
pub proof fn text_order_transitive(a: Seq<char>, b: Seq<char>, c: Seq<char>)
    requires
        text_before(a, b),
        text_before(b, c),
    ensures
        text_before(a, c),
    decreases a.len(),
{
    if a.len() > 0 && a[0] == b[0] && b[0] == c[0] {
        text_order_transitive(a.skip(1), b.skip(1), c.skip(1));
    }
}

/// The contents of an optional text.
pub open spec fn opt_text(s: Option<String>) -> Option<Seq<char>> {
    match s {
        Some(t) => Some(t@),
        None => None,
    }
}

/// The contents of a list of texts.
pub open spec fn texts(s: Seq<String>) -> Seq<Seq<char>> {
    Seq::new(s.len(), |i: int| s[i]@)
}

/// A copy of an optional text.
pub fn copy_opt(s: &Option<String>) -> (r: Option<String>)
    ensures
        opt_text(r) == opt_text(*s),
        r == *s,
{
    match s {
        Some(t) => Some(t.clone()),
        None => None,
    }
}

/// A copy of a list of texts.
pub fn copy_texts(v: &Vec<String>) -> (r: Vec<String>)
    ensures
        texts(r@) == texts(v@),
        r@ == v@,
{
    let mut out: Vec<String> = Vec::new();
    let mut i: usize = 0;
    while i < v.len()
        invariant
            i <= v.len(),
            out@ == v@.take(i as int),
        decreases v.len() - i,
    {
        out.push(v[i].clone());
        i += 1;
        assert(out@ =~= v@.take(i as int));
    }
    assert(out@ =~= v@);
    out
}

/// The number that `name` holds between `prefix` and `suffix`, if it has that
/// form and the number is at most `max`.
pub open spec fn framed_number(name: Seq<char>, prefix: Seq<char>, suffix: Seq<char>, max: nat) -> Option<nat> {
    if name.len() >= prefix.len() + suffix.len() && name.take(prefix.len() as int) == prefix
        && name.skip(name.len() - suffix.len()) == suffix {
        parsed_number(name.subrange(prefix.len() as int, name.len() - suffix.len()), 10, max)
    } else {
        None
    }
}

/// Reads the number between a prefix and a suffix.
pub fn parse_framed(name: &str, prefix: &str, suffix: &str, max: u64) -> (r: Option<u64>)
    ensures
        r matches Some(v) ==> framed_number(name@, prefix@, suffix@, max as nat) == Some(v as nat),
        r is None ==> framed_number(name@, prefix@, suffix@, max as nat) is None,
{
    let n = name.unicode_len();
    let p = prefix.unicode_len();
    let q = suffix.unicode_len();
    if n < p || n - p < q {
        return None;
    }
    let head = name.substring_char(0, p);
    let tail = name.substring_char(n - q, n);
    assert(head@ =~= name@.take(p as int));
    assert(tail@ =~= name@.skip(n - q));
    if same_text(head, prefix) && same_text(tail, suffix) {
        parse_number(name.substring_char(p, n - q), 10, max)
    } else {
        None
    }
}

/// A numeral with zeros before it denotes the same number.
pub proof fn zeros_do_not_count(s: Seq<char>, k: nat, base: nat)
    requires
        base >= 2,
    ensures
        digits_value(Seq::new(k, |i: int| '0') + s, base) == digits_value(s, base),
    decreases s.len(), k,
{
    let z = Seq::new(k, |i: int| '0');
    let t = z + s;
    if s.len() == 0 {
        assert(t =~= z);
        if k > 0 {
            assert(z.drop_last() =~= Seq::new((k - 1) as nat, |i: int| '0'));
            zeros_do_not_count(s, (k - 1) as nat, base);
            assert(Seq::new((k - 1) as nat, |i: int| '0') + s =~= z.drop_last());
            assert(0 * base == 0) by (nonlinear_arith);
            assert(digit_value('0', base) == Some(0nat));
        } else {
            assert(t =~= s);
        }
    } else {
        zeros_do_not_count(s.drop_last(), k, base);
        assert(t.drop_last() =~= z + s.drop_last());
        assert(t.last() == s.last());
    }
}

/// Reading a framed, zero-padded decimal number gives the number back.
pub proof fn framed_number_round_trips(n: nat, prefix: Seq<char>, suffix: Seq<char>, width: nat, max: nat)
    requires
        n <= max,
    ensures
        framed_number(prefix + zero_padded(decimal(n), width) + suffix, prefix, suffix, max) == Some(n),
{
    let d = decimal(n);
    let body = zero_padded(d, width);
    let name = prefix + body + suffix;
    numeral_reads_back(n, 10, false);
    if d.len() < width {
        zeros_do_not_count(d, (width - d.len()) as nat, 10);
    }
    assert(digits_value(body, 10) == Some(n));
    assert(body.len() >= 1);
    assert(body[0] != '+');
    assert(name.take(prefix.len() as int) =~= prefix);
    assert(name.skip(name.len() - suffix.len()) =~= suffix);
    assert(name.subrange(prefix.len() as int, name.len() - suffix.len()) =~= body);
}

} // verus!
